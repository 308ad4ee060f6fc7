//! The lexer: from source text to tokens.
//!
//! A token is a word, a number, a text or character literal, a comment, a compiler
//! directive or a symbol. A word is a reserved word or an identifier; a word behind `&` is
//! an identifier whatever it spells. Whitespace is no token: it is kept as the leading
//! whitespace of the token behind it, and what trails the last token leads the final `Eof`
//! token. The tokens therefore spell the text again.

use vstd::prelude::*;
use vstd::string::*;
use vstd::utf8::{decode_utf8_split, encode_scalar, encode_utf8, encode_utf8_decode_utf8, encode_utf8_valid_utf8};
use crate::chars::{
    digit, is_digit, is_letter, is_space, is_word, letter, lower, space, to_chars, to_lower, word,
};
use crate::keywords::{keyword, keyword_of};
use crate::reconstruct::{is_line_break, is_line_comment, lead, text_behind, text_of};
use crate::token::{token_views, Token, TokenType, TokenView};

verus! {

/// The kinds of runs of characters that the lexer passes over.
#[derive(Clone, Copy, Debug, PartialEq, Eq, Structural)]
pub enum Run {
    /// Whitespace.
    Spaces,
    /// The characters of a word.
    Word,
    /// The characters of a character code: those of a word, and `$`.
    Code,
    /// Everything up to the end of the line.
    Line,
    /// Everything up to a `'` or the end of the line.
    Text,
    /// Everything up to a `}`.
    Braced,
}

impl Run {
    /// Whether the character belongs to the run.
    pub open spec fn holds(self, c: char) -> bool {
        match self {
            Run::Spaces => is_space(c),
            Run::Word => is_word(c),
            Run::Code => is_word(c) || c == '$',
            Run::Line => c != '\n' && c != '\r',
            Run::Text => c != '\'' && c != '\n' && c != '\r',
            Run::Braced => c != '}',
        }
    }

    /// Whether the character belongs to the run.
    pub fn takes(self, c: char) -> (yes: bool)
        ensures
            yes == self.holds(c),
    {
        match self {
            Run::Spaces => space(c),
            Run::Word => word(c),
            Run::Code => word(c) || c == '$',
            Run::Line => c != '\n' && c != '\r',
            Run::Text => c != '\'' && c != '\n' && c != '\r',
            Run::Braced => c != '}',
        }
    }
}

/// The end of the run that starts at `p`: the first position from `p` on whose character
/// does not belong to the run, or the length of the text.
pub open spec fn run_end(text: Seq<char>, run: Run, p: int) -> int
    decreases text.len() - p,
{
    if 0 <= p < text.len() && run.holds(text[p]) {
        run_end(text, run, p + 1)
    } else {
        p
    }
}

/// The position behind the first `*)` that starts at `p` or later, or the length of the
/// text.
pub open spec fn starred_end(text: Seq<char>, p: int) -> int
    decreases text.len() - p,
{
    if p < 0 || p >= text.len() {
        p
    } else if text[p] == '*' && p + 1 < text.len() && text[p + 1] == ')' {
        p + 2
    } else {
        starred_end(text, p + 1)
    }
}

/// The character at `p`, or a blank where the text has none.
pub open spec fn char_at(text: Seq<char>, p: int) -> char {
    if 0 <= p < text.len() {
        text[p]
    } else {
        ' '
    }
}

/// Whether the two characters form one symbol.
pub open spec fn is_double_symbol(first: char, second: char) -> bool {
    ||| first == ':' && second == '='
    ||| first == '<' && second == '='
    ||| first == '>' && second == '='
    ||| first == '<' && second == '>'
    ||| first == '.' && second == '.'
}

/// Whether the character is a symbol other than `;`.
pub open spec fn is_symbol(c: char) -> bool {
    ||| c == '+'
    ||| c == '-'
    ||| c == '*'
    ||| c == '/'
    ||| c == '='
    ||| c == '<'
    ||| c == '>'
    ||| c == '['
    ||| c == ']'
    ||| c == '('
    ||| c == ')'
    ||| c == '.'
    ||| c == ','
    ||| c == ':'
    ||| c == '^'
    ||| c == '@'
    ||| c == '&'
}

/// The position behind the token that starts at `p`, where a character that is no
/// whitespace stands.
pub open spec fn token_end(text: Seq<char>, p: int) -> int {
    let c = char_at(text, p);
    let next = char_at(text, p + 1);
    if is_letter(c) || (c == '&' && is_letter(next)) {
        run_end(text, Run::Word, p + 1)
    } else if is_digit(c) {
        let whole = run_end(text, Run::Word, p + 1);
        if char_at(text, whole) == '.' && is_digit(char_at(text, whole + 1)) {
            run_end(text, Run::Word, whole + 2)
        } else {
            whole
        }
    } else if c == '$' {
        run_end(text, Run::Word, p + 1)
    } else if c == '#' {
        run_end(text, Run::Code, p + 1)
    } else if c == '\'' {
        let body = run_end(text, Run::Text, p + 1);
        if char_at(text, body) == '\'' {
            body + 1
        } else {
            body
        }
    } else if c == '{' {
        let body = run_end(text, Run::Braced, p + 1);
        if body < text.len() {
            body + 1
        } else {
            body
        }
    } else if c == '(' && next == '*' {
        starred_end(text, p + 2)
    } else if c == '/' && next == '/' {
        run_end(text, Run::Line, p + 2)
    } else if is_double_symbol(c, next) {
        p + 2
    } else {
        p + 1
    }
}

/// The type of the token that occupies the positions from `p` up to `end`.
pub open spec fn token_type(text: Seq<char>, p: int, end: int) -> TokenType {
    let c = char_at(text, p);
    let next = char_at(text, p + 1);
    if is_letter(c) {
        match keyword_of(lower(text.subrange(p, end))) {
            Some(kind) => TokenType::Keyword(kind),
            None => TokenType::Identifier,
        }
    } else if c == '&' && is_letter(next) {
        TokenType::Identifier
    } else if is_digit(c) || c == '$' {
        TokenType::NumberLiteral
    } else if c == '#' || c == '\'' {
        TokenType::StringLiteral
    } else if c == '{' {
        if next == '$' {
            TokenType::CompilerDirective
        } else {
            TokenType::Comment
        }
    } else if c == '(' && next == '*' {
        if char_at(text, p + 2) == '$' {
            TokenType::CompilerDirective
        } else {
            TokenType::Comment
        }
    } else if c == '/' && next == '/' {
        TokenType::Comment
    } else if c == ';' {
        TokenType::Semicolon
    } else if is_symbol(c) {
        TokenType::Symbol
    } else {
        TokenType::Unknown
    }
}

/// The tokens of the text from `p` on.
pub open spec fn tokens_from(text: Seq<char>, p: int) -> Seq<TokenView>
    decreases text.len() - p,
    when 0 <= p <= text.len()
    via tokens_from_decreases
{
    let start = run_end(text, Run::Spaces, p);
    if start >= text.len() {
        seq![
            TokenView {
                leading_whitespace: text.subrange(p, text.len() as int),
                content: seq![],
                token_type: TokenType::Eof,
            },
        ]
    } else {
        let end = token_end(text, start);
        seq![
            TokenView {
                leading_whitespace: text.subrange(p, start),
                content: text.subrange(start, end),
                token_type: token_type(text, start, end),
            },
        ] + tokens_from(text, end)
    }
}

#[via_fn]
proof fn tokens_from_decreases(text: Seq<char>, p: int) {
    let start = run_end(text, Run::Spaces, p);
    lemma_run_end(text, Run::Spaces, p);
    if start < text.len() {
        lemma_token_end(text, start);
    }
}

/// The tokens of the text.
pub open spec fn tokens_of(text: Seq<char>) -> Seq<TokenView> {
    tokens_from(text, 0)
}

/// A run ends inside the text, at or behind its start.
pub proof fn lemma_run_end(text: Seq<char>, run: Run, p: int)
    requires
        0 <= p <= text.len(),
    ensures
        p <= run_end(text, run, p) <= text.len(),
        run_end(text, run, p) < text.len() ==> !run.holds(text[run_end(text, run, p)]),
    decreases text.len() - p,
{
    if p < text.len() && run.holds(text[p]) {
        lemma_run_end(text, run, p + 1);
    }
}

/// A starred comment ends inside the text, at or behind the position where the search
/// for its end started.
pub proof fn lemma_starred_end(text: Seq<char>, p: int)
    requires
        0 <= p <= text.len(),
    ensures
        p <= starred_end(text, p) <= text.len(),
    decreases text.len() - p,
{
    if p < text.len() && !(text[p] == '*' && p + 1 < text.len() && text[p + 1] == ')') {
        lemma_starred_end(text, p + 1);
    }
}

/// A token is not empty and ends inside the text.
pub proof fn lemma_token_end(text: Seq<char>, p: int)
    requires
        0 <= p < text.len(),
    ensures
        p < token_end(text, p) <= text.len(),
{
    lemma_run_end(text, Run::Word, p + 1);
    lemma_run_end(text, Run::Code, p + 1);
    lemma_run_end(text, Run::Text, p + 1);
    lemma_run_end(text, Run::Braced, p + 1);
    let whole = run_end(text, Run::Word, p + 1);
    if whole + 2 <= text.len() {
        lemma_run_end(text, Run::Word, whole + 2);
    }
    if p + 2 <= text.len() {
        lemma_run_end(text, Run::Line, p + 2);
        lemma_starred_end(text, p + 2);
    }
}

/// Where a token ends, the text goes on in a way that parts the token from the next: a
/// word is followed by no character of a word, and a line comment by a line break, if
/// anything follows at all.
pub open spec fn parted(text: Seq<char>, token: TokenView, end: int) -> bool {
    &&& is_line_comment(token) ==> end >= text.len() || is_line_break(text[end])
    &&& token.content.len() > 0 && is_word(token.content.last()) ==> end >= text.len() || !is_word(
        text[end],
    )
}

/// The token that starts at `p`, with the whitespace from `from` on in front of it.
pub open spec fn token_at(text: Seq<char>, from: int, p: int) -> TokenView {
    TokenView {
        leading_whitespace: text.subrange(from, p),
        content: text.subrange(p, token_end(text, p)),
        token_type: token_type(text, p, token_end(text, p)),
    }
}

/// Every token is parted from what follows it.
pub proof fn lemma_token_is_parted(text: Seq<char>, from: int, p: int)
    requires
        0 <= from <= p < text.len(),
    ensures
        parted(text, token_at(text, from, p), token_end(text, p)),
{
    let end = token_end(text, p);
    let token = token_at(text, from, p);
    lemma_token_end(text, p);
    lemma_run_end(text, Run::Word, p + 1);
    lemma_run_end(text, Run::Code, p + 1);
    lemma_run_end(text, Run::Text, p + 1);
    lemma_run_end(text, Run::Braced, p + 1);
    let whole = run_end(text, Run::Word, p + 1);
    if whole + 2 <= text.len() {
        lemma_run_end(text, Run::Word, whole + 2);
    }
    if p + 2 <= text.len() {
        lemma_run_end(text, Run::Line, p + 2);
        lemma_starred_end(text, p + 2);
        lemma_starred_ends_with_bracket(text, p + 2);
    }
    assert(token.content.last() == text[end - 1]);
    assert(token.content[0] == text[p]);
    if token.content.len() >= 2 {
        assert(token.content[1] == text[p + 1]);
    }
}

/// A starred comment that ends inside the text ends with `)`.
pub proof fn lemma_starred_ends_with_bracket(text: Seq<char>, p: int)
    requires
        0 <= p <= text.len(),
    ensures
        starred_end(text, p) < text.len() ==> starred_end(text, p) >= p + 2 && text[starred_end(
            text,
            p,
        ) - 1] == ')',
    decreases text.len() - p,
{
    if p < text.len() && !(text[p] == '*' && p + 1 < text.len() && text[p + 1] == ')') {
        lemma_starred_ends_with_bracket(text, p + 1);
    }
}

/// The tokens of a text from `p` on spell the text from `p` on, behind a token that is
/// parted from what follows it.
pub proof fn lemma_tokens_spell_text(text: Seq<char>, previous: Option<TokenView>, p: int)
    requires
        0 <= p <= text.len(),
        previous matches Some(token) ==> parted(text, token, p),
    ensures
        text_behind(previous, tokens_from(text, p)) == text.subrange(p, text.len() as int),
    decreases text.len() - p,
{
    let start = run_end(text, Run::Spaces, p);
    lemma_run_end(text, Run::Spaces, p);
    let tokens = tokens_from(text, p);
    if start >= text.len() {
        assert(tokens.len() == 1);
        assert(tokens.drop_first() =~= Seq::<TokenView>::empty());
        assert(text_behind(Some(tokens[0]), tokens.drop_first()) =~= Seq::<char>::empty());
        assert(text_behind(previous, tokens) =~= text.subrange(p, text.len() as int));
    } else {
        let end = token_end(text, start);
        let token = token_at(text, p, start);
        lemma_token_end(text, start);
        lemma_token_is_parted(text, p, start);
        lemma_tokens_spell_text(text, Some(token), end);
        assert(tokens[0] == token);
        assert(tokens.drop_first() =~= tokens_from(text, end));
        assert(lead(previous, token) == token.leading_whitespace) by {
            if previous is Some {
                assert(token.content[0] == text[start]);
                if start > p {
                    assert(token.leading_whitespace[0] == text[p]);
                    assert(is_space(text[p])) by {
                        lemma_run_holds(text, Run::Spaces, p, p);
                    }
                }
            }
        }
        assert(text_behind(previous, tokens) =~= text.subrange(p, text.len() as int));
    }
}

/// Every character of a run belongs to the run.
pub proof fn lemma_run_holds(text: Seq<char>, run: Run, p: int, i: int)
    requires
        0 <= p <= i < run_end(text, run, p),
        p <= text.len(),
    ensures
        i < text.len(),
        run.holds(text[i]),
    decreases text.len() - p,
{
    lemma_run_end(text, run, p);
    if p < text.len() && run.holds(text[p]) {
        if i > p {
            lemma_run_holds(text, run, p + 1, i);
        }
    }
}

/// Lexing loses nothing: the tokens of a text spell the text.
pub proof fn lemma_lexing_is_lossless(text: Seq<char>)
    ensures
        text_of(tokens_of(text)) == text,
{
    lemma_tokens_spell_text(text, None, 0);
    assert(text.subrange(0, text.len() as int) =~= text);
}

/// The tokens of a text end with the one `Eof` token: it is the last token and has no
/// content, and every token in front of it has content and another type.
pub proof fn lemma_tokens_end_with_eof(text: Seq<char>, p: int)
    requires
        0 <= p <= text.len(),
    ensures
        tokens_from(text, p).len() > 0,
        tokens_from(text, p).last().token_type == TokenType::Eof,
        tokens_from(text, p).last().content.len() == 0,
        forall|i: int|
            0 <= i < tokens_from(text, p).len() - 1 ==> (#[trigger] tokens_from(text, p)[i]).token_type
                != TokenType::Eof && tokens_from(text, p)[i].content.len() > 0,
    decreases text.len() - p,
{
    let start = run_end(text, Run::Spaces, p);
    lemma_run_end(text, Run::Spaces, p);
    let tokens = tokens_from(text, p);
    if start < text.len() {
        let end = token_end(text, start);
        lemma_token_end(text, start);
        lemma_tokens_end_with_eof(text, end);
        let rest = tokens_from(text, end);
        assert(tokens.last() == rest.last());
        assert forall|i: int| 0 <= i < tokens.len() - 1 implies (#[trigger] tokens[i]).token_type
            != TokenType::Eof && tokens[i].content.len() > 0 by {
            if i > 0 {
                assert(tokens[i] == rest[i - 1]);
            }
        }
    }
}

/// The end of the run that starts at `p`.
pub fn pass_run(chars: &Vec<char>, run: Run, p: usize) -> (end: usize)
    requires
        p <= chars.len(),
    ensures
        end == run_end(chars@, run, p as int),
        p <= end <= chars.len(),
{
    let mut end: usize = p;
    while end < chars.len() && run.takes(chars[end])
        invariant
            p <= end <= chars.len(),
            run_end(chars@, run, p as int) == run_end(chars@, run, end as int),
        decreases chars.len() - end,
    {
        end += 1;
    }
    end
}

/// The position behind the first `*)` that starts at `p` or later.
pub fn pass_starred(chars: &Vec<char>, p: usize) -> (end: usize)
    requires
        p <= chars.len(),
    ensures
        end == starred_end(chars@, p as int),
        p <= end <= chars.len(),
{
    let mut end: usize = p;
    while end < chars.len()
        invariant
            p <= end <= chars.len(),
            starred_end(chars@, p as int) == starred_end(chars@, end as int),
        decreases chars.len() - end,
    {
        if chars[end] == '*' && end + 1 < chars.len() && chars[end + 1] == ')' {
            return end + 2;
        }
        end += 1;
    }
    end
}

/// The character at `p`, or a blank where there is none.
pub fn peek(chars: &Vec<char>, p: usize) -> (c: char)
    ensures
        c == char_at(chars@, p as int),
{
    if p < chars.len() {
        chars[p]
    } else {
        ' '
    }
}

fn double_symbol(first: char, second: char) -> (yes: bool)
    ensures
        yes == is_double_symbol(first, second),
{
    (first == ':' && second == '=') || (first == '<' && second == '=') || (first == '>'
        && second == '=') || (first == '<' && second == '>') || (first == '.' && second == '.')
}

fn symbol(c: char) -> (yes: bool)
    ensures
        yes == is_symbol(c),
{
    c == '+' || c == '-' || c == '*' || c == '/' || c == '=' || c == '<' || c == '>' || c == '['
        || c == ']' || c == '(' || c == ')' || c == '.' || c == ',' || c == ':' || c == '^' || c
        == '@' || c == '&'
}

/// The position behind the token that starts at `p`.
pub fn find_token_end(chars: &Vec<char>, p: usize) -> (end: usize)
    requires
        p < chars.len(),
    ensures
        end == token_end(chars@, p as int),
        p < end <= chars.len(),
{
    proof {
        lemma_token_end(chars@, p as int);
        lemma_run_end(chars@, Run::Word, p + 1);
        lemma_run_end(chars@, Run::Text, p + 1);
        lemma_run_end(chars@, Run::Braced, p + 1);
    }
    let c = chars[p];
    let next = peek(chars, p + 1);
    if letter(c) || (c == '&' && letter(next)) {
        pass_run(chars, Run::Word, p + 1)
    } else if digit(c) {
        let whole = pass_run(chars, Run::Word, p + 1);
        if whole < chars.len() && chars[whole] == '.' && whole + 1 < chars.len() && digit(
            chars[whole + 1],
        ) {
            pass_run(chars, Run::Word, whole + 2)
        } else {
            whole
        }
    } else if c == '$' {
        pass_run(chars, Run::Word, p + 1)
    } else if c == '#' {
        pass_run(chars, Run::Code, p + 1)
    } else if c == '\'' {
        let body = pass_run(chars, Run::Text, p + 1);
        if body < chars.len() && chars[body] == '\'' {
            body + 1
        } else {
            body
        }
    } else if c == '{' {
        let body = pass_run(chars, Run::Braced, p + 1);
        if body < chars.len() {
            body + 1
        } else {
            body
        }
    } else if c == '(' && next == '*' {
        pass_starred(chars, p + 2)
    } else if c == '/' && next == '/' {
        pass_run(chars, Run::Line, p + 2)
    } else if double_symbol(c, next) {
        p + 2
    } else {
        p + 1
    }
}

/// The type of the token that occupies the positions from `p` up to `end`.
pub fn find_token_type(chars: &Vec<char>, p: usize, end: usize) -> (found: TokenType)
    requires
        p < end <= chars.len(),
    ensures
        found == token_type(chars@, p as int, end as int),
{
    let c = chars[p];
    let next = peek(chars, p + 1);
    if letter(c) {
        let small = to_lower(chars, p, end);
        match keyword(&small) {
            Some(kind) => TokenType::Keyword(kind),
            None => TokenType::Identifier,
        }
    } else if c == '&' && letter(next) {
        TokenType::Identifier
    } else if digit(c) || c == '$' {
        TokenType::NumberLiteral
    } else if c == '#' || c == '\'' {
        TokenType::StringLiteral
    } else if c == '{' {
        if next == '$' {
            TokenType::CompilerDirective
        } else {
            TokenType::Comment
        }
    } else if c == '(' && next == '*' {
        if peek(chars, p + 2) == '$' {
            TokenType::CompilerDirective
        } else {
            TokenType::Comment
        }
    } else if c == '/' && next == '/' {
        TokenType::Comment
    } else if c == ';' {
        TokenType::Semicolon
    } else if symbol(c) {
        TokenType::Symbol
    } else {
        TokenType::Unknown
    }
}

/// The number of bytes that the characters between `from` and `to` take in a string, or
/// the greatest number there is where they take more than can be counted.
fn width(chars: &Vec<char>, from: usize, to: usize) -> (total: usize)
    requires
        from <= to <= chars.len(),
    ensures
        total == counted(bytes_of(chars@.subrange(from as int, to as int))),
{
    let mut total: usize = 0;
    let mut i: usize = from;
    proof {
        assert(chars@.subrange(from as int, from as int) =~= Seq::<char>::empty());
    }
    while i < to
        invariant
            from <= i <= to <= chars.len(),
            total == counted(bytes_of(chars@.subrange(from as int, i as int))),
        decreases to - i,
    {
        let code = chars[i] as u32;
        let step: usize = if code < 0x80 {
            1
        } else if code < 0x800 {
            2
        } else if code < 0x10000 {
            3
        } else {
            4
        };
        proof {
            let front = chars@.subrange(from as int, i as int);
            lemma_bytes_of_one_more(front, chars@[i as int]);
            lemma_bytes_of_char(chars@[i as int]);
            assert(chars@.subrange(from as int, i + 1) =~= front.push(chars@[i as int]));
        }
        total = if total > usize::MAX - step {
            usize::MAX
        } else {
            total + step
        };
        i += 1;
    }
    total
}

/// Cuts the first `n` characters off the text.
///
/// `bytes` says how many bytes these characters are expected to take. Where the text can
/// be cut behind that many bytes into a first part of `n` characters, it is cut there;
/// otherwise the characters are counted from the start of the text.
fn cut<'a>(text: &'a str, n: usize, bytes: usize) -> (parts: (&'a str, &'a str))
    requires
        n <= text@.len(),
    ensures
        parts.0@ == text@.take(n as int),
        parts.1@ == text@.skip(n as int),
{
    if bytes <= text.len() && text.is_char_boundary(bytes) {
        let (head, tail) = text.split_at(bytes);
        if head.unicode_len() == n {
            proof {
                let all = text.spec_bytes();
                encode_utf8_valid_utf8(text@);
                encode_utf8_decode_utf8(text@);
                encode_utf8_decode_utf8(head@);
                encode_utf8_decode_utf8(tail@);
                decode_utf8_split(all, bytes as int);
                assert(head.spec_bytes() == all.subrange(0, bytes as int));
                assert(tail.spec_bytes() == all.subrange(bytes as int, all.len() as int));
                assert(text@ =~= head@ + tail@);
                assert(head@ =~= text@.take(n as int));
                assert(tail@ =~= text@.skip(n as int));
            }
            return (head, tail);
        }
    }
    let length = text.unicode_len();
    let head = text.substring_char(0, n);
    let tail = text.substring_char(n, length);
    assert(text@.subrange(0, n as int) =~= text@.take(n as int));
    assert(text@.subrange(n as int, length as int) =~= text@.skip(n as int));
    (head, tail)
}

/// The number of bytes that the characters take in a string: the length of their
/// encoding.
pub open spec fn bytes_of(chars: Seq<char>) -> int {
    encode_utf8(chars).len() as int
}

/// The number as far as it can be counted: itself, or the greatest number there is.
pub open spec fn counted(n: int) -> int {
    if n <= usize::MAX {
        n
    } else {
        usize::MAX as int
    }
}

/// The number of bytes that one character takes in a string.
pub open spec fn char_bytes(c: char) -> int {
    if (c as u32) < 0x80 {
        1
    } else if (c as u32) < 0x800 {
        2
    } else if (c as u32) < 0x10000 {
        3
    } else {
        4
    }
}

/// A character takes one to four bytes, by the size of its code.
pub proof fn lemma_bytes_of_char(c: char)
    ensures
        encode_scalar(c as u32).len() == char_bytes(c),
        1 <= char_bytes(c) <= 4,
{
}

/// The encoding of characters put one behind the other is the encoding of the first
/// ones followed by the encoding of the others.
pub proof fn lemma_encoding_concat(front: Seq<char>, back: Seq<char>)
    ensures
        encode_utf8(front + back) == encode_utf8(front) + encode_utf8(back),
    decreases front.len(),
{
    if front.len() == 0 {
        assert(front + back =~= back);
        assert(encode_utf8(front) + encode_utf8(back) =~= encode_utf8(back));
    } else {
        lemma_encoding_concat(front.drop_first(), back);
        assert((front + back).drop_first() =~= front.drop_first() + back);
        assert(encode_utf8(front + back) =~= encode_utf8(front) + encode_utf8(back));
    }
}

/// One more character takes as many bytes more as the character takes.
pub proof fn lemma_bytes_of_one_more(chars: Seq<char>, c: char)
    ensures
        bytes_of(chars.push(c)) == bytes_of(chars) + encode_scalar(c as u32).len(),
{
    lemma_encoding_concat(chars, seq![c]);
    assert(chars.push(c) =~= chars + seq![c]);
    assert(seq![c].drop_first() =~= Seq::<char>::empty());
    assert(encode_utf8(seq![c].drop_first()) =~= Seq::<u8>::empty());
    assert(seq![c][0] == c);
    assert(encode_utf8(seq![c]) =~= encode_scalar(c as u32));
}

/// The lexer.
#[derive(Clone, Copy, Debug)]
pub struct DelphiLexer {}

impl DelphiLexer {
    /// The tokens of the text, the last of them `Eof`.
    pub fn lex(&self, input: &str) -> (tokens: Vec<Token>)
        ensures
            token_views(tokens@) == tokens_of(input@),
            text_of(token_views(tokens@)) == input@,
    {
        let chars = to_chars(input);
        let mut rest = input;
        let mut tokens: Vec<Token> = Vec::new();
        let mut p: usize = 0;
        proof {
            lemma_lexing_is_lossless(input@);
            assert(token_views(tokens@) + tokens_from(input@, 0) =~= tokens_of(input@));
            assert(input@.skip(0) =~= input@);
        }
        loop
            invariant
                p <= chars.len(),
                chars@ == input@,
                rest@ == input@.skip(p as int),
                token_views(tokens@) + tokens_from(input@, p as int) == tokens_of(input@),
                text_of(tokens_of(input@)) == input@,
            decreases chars.len() - p,
        {
            let ghost before = token_views(tokens@);
            let start = pass_run(&chars, Run::Spaces, p);
            let (whitespace, behind) = cut(rest, start - p, width(&chars, p, start));
            assert(whitespace@ =~= input@.subrange(p as int, start as int));
            assert(behind@ =~= input@.skip(start as int));
            if start >= chars.len() {
                tokens.push(Token::new(whitespace.to_owned(), String::new(), TokenType::Eof));
                assert(token_views(tokens@) =~= before + tokens_from(input@, p as int));
                return tokens;
            }
            let end = find_token_end(&chars, start);
            let found = find_token_type(&chars, start, end);
            let (content, after) = cut(behind, end - start, width(&chars, start, end));
            assert(content@ =~= input@.subrange(start as int, end as int));
            assert(after@ =~= input@.skip(end as int));
            tokens.push(Token::new(whitespace.to_owned(), content.to_owned(), found));
            assert(token_views(tokens@) + tokens_from(input@, end as int) =~= before
                + tokens_from(input@, p as int));
            rest = after;
            p = end;
        }
    }
}

} // verus!
