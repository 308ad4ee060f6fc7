use pasfmt_core::engine::find_anchor;
use pasfmt_core::lexer::DelphiLexer;
use pasfmt_core::recognizer::{recognize, recognize_body, Construct};
use pasfmt_core::role::{classify_all, Role};
use pasfmt_core::wrap::Stop;

fn roles(input: &str) -> Vec<Role> {
    let mut roles = classify_all(&DelphiLexer {}.lex(input));
    roles.pop();
    roles
}

fn at(input: &str, p: usize) -> Option<Construct> {
    recognize(&roles(input), p)
}

#[test]
fn single_statement_ends_behind_its_terminator() {
    // 0:if 1:A 2:then 3:B 4:; 5:C 6:;
    let found = at("if A then B; C;", 0).unwrap();
    assert_eq!(found.keyword, 2);
    assert_eq!((found.body.start, found.body.end), (3, 5));
    assert!(!found.body.is_block);
    assert_eq!(found.body.stop, Stop::Semicolon);
    assert!(found.alternative.is_none());
}

#[test]
fn else_at_the_same_depth_is_found() {
    // 0:if 1:A 2:then 3:B 4:else 5:C 6:;
    let found = at("if A then B else C;", 0).unwrap();
    assert_eq!(found.keyword, 2);
    assert_eq!((found.body.start, found.body.end), (3, 4));
    assert_eq!(found.body.stop, Stop::Else);
    let alternative = found.alternative.unwrap();
    assert_eq!(alternative.keyword, 4);
    assert_eq!((alternative.body.start, alternative.body.end), (5, 7));
    assert_eq!(alternative.body.stop, Stop::Semicolon);
}

#[test]
fn terminator_inside_a_block_does_not_end_the_body() {
    // 0:while 1:A 2:do 3:begin 4:B 5:; 6:C 7:; 8:end 9:; 10:D
    let found = at("while A do begin B; C; end; D", 0).unwrap();
    assert_eq!(found.keyword, 2);
    assert_eq!((found.body.start, found.body.end), (3, 10));
    assert!(found.body.is_block);
    assert_eq!(found.body.stop, Stop::Semicolon);
}

#[test]
fn else_of_an_inner_if_is_not_the_else_of_the_outer_one() {
    // 0:if 1:A 2:then 3:if 4:B 5:then 6:C 7:else 8:D 9:;
    let input = "if A then if B then C else D;";
    let outer = at(input, 0).unwrap();
    assert_eq!((outer.body.start, outer.body.end), (3, 10));
    assert!(outer.alternative.is_none());
    let inner = at(input, 3).unwrap();
    assert_eq!(inner.keyword, 5);
    assert_eq!((inner.body.start, inner.body.end), (6, 7));
    assert_eq!(inner.alternative.unwrap().keyword, 7);
}

#[test]
fn else_inside_a_block_is_not_the_else_of_the_construct() {
    // 0:if 1:A 2:then 3:begin 4:if 5:B 6:then 7:C 8:else 9:D 10:end 11:else 12:E 13:;
    let found = at("if A then begin if B then C else D end else E;", 0).unwrap();
    assert_eq!((found.body.start, found.body.end), (3, 11));
    assert!(found.body.is_block);
    assert_eq!(found.alternative.unwrap().keyword, 11);
}

#[test]
fn trivia_in_front_of_the_body_is_passed_over() {
    // 0:for 1:i 2:do 3:{a} 4:{b} 5:begin 6:end
    let found = at("for i do {a} {b} begin end", 0).unwrap();
    assert_eq!(found.body.start, 5);
    assert!(found.body.is_block);
    assert_eq!(found.body.end, 7);
    assert_eq!(found.body.stop, Stop::Exhausted);
}

#[test]
fn loops_have_no_alternative() {
    // 0:for 1:i 2:do 3:X 4:else 5:Y
    let found = at("for i do X else Y", 0).unwrap();
    assert_eq!((found.body.start, found.body.end), (3, 4));
    assert_eq!(found.body.stop, Stop::Else);
    assert!(found.alternative.is_none());
}

#[test]
fn body_may_stop_at_a_closer_or_run_out() {
    // 0:begin 1:if 2:A 3:then 4:B 5:end
    let found = at("begin if A then B end", 1).unwrap();
    assert_eq!((found.body.start, found.body.end), (4, 5));
    assert_eq!(found.body.stop, Stop::Closer);
    let open = at("if A then B", 0).unwrap();
    assert_eq!((open.body.start, open.body.end), (3, 4));
    assert_eq!(open.body.stop, Stop::Exhausted);
    let none = at("if A then", 0).unwrap();
    assert_eq!((none.body.start, none.body.end), (3, 3));
    assert_eq!(none.body.stop, Stop::Exhausted);
}

#[test]
fn no_construct_without_the_controlling_keyword() {
    assert!(at("if A B;", 0).is_none());
    assert!(at("if A do B;", 0).is_none());
    assert!(at("for i then B;", 0).is_none());
    assert!(at("while A; do B;", 0).is_none());
    assert!(at("if A begin then", 0).is_none());
    assert!(at("if", 0).is_none());
    assert!(at("A then B", 0).is_none());
    assert!(at("if A then B", 1).is_none());
}

#[test]
fn anchor_is_the_first_token_that_is_no_filler() {
    let found = roles("if a = b {c} of then x");
    assert_eq!(find_anchor(&found, 0), Some(6));
    assert_eq!(find_anchor(&roles("while a do b do c"), 0), Some(2));
    assert_eq!(find_anchor(&roles("for a if b do c"), 0), None);
    assert_eq!(find_anchor(&roles("for a if b do c"), 2), None);
}

#[test]
fn body_of_a_branch_by_itself() {
    // 0:{c} 1:A 2:; 3:B
    let body = recognize_body(&roles("{c} A; B"), 0);
    assert_eq!((body.start, body.end), (1, 3));
    assert!(!body.is_block);
    assert_eq!(body.stop, Stop::Semicolon);
    let nothing = recognize_body(&roles(""), 0);
    assert_eq!((nothing.start, nothing.end), (0, 0));
    assert_eq!(nothing.stop, Stop::Exhausted);
}
