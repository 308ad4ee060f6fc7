use pasfmt_core::inspect::{parse_with_loop_wrap, reconstruct};

#[test]
fn test_simple_for_wrap_structure() {
    let input = "for i := 1 to 10 do writeln(i);";
    let (lines, tokens) = parse_with_loop_wrap(input);
    let result = reconstruct(&lines, &tokens);
    println!("{}", result);

    assert!(result.contains("begin\n"), "Missing begin on its own line/block");
    assert!(result.contains("end ;\n"), "Missing end on its own line/block");

    let output_str_only_tokens =
        tokens.iter().map(|t| t.get_content()).collect::<Vec<_>>().join(" ");
    assert!(output_str_only_tokens.contains("do begin writeln ( i ) ; end ;"));
}

#[test]
fn test_simple_while_wrap_structure() {
    let input = "while True do writeln('hit');";
    let (lines, tokens) = parse_with_loop_wrap(input);
    let result = reconstruct(&lines, &tokens);
    println!("{}", result);

    assert!(result.contains("begin\n"));
    assert!(result.contains("end ;"));
}

#[test]
fn test_nested_loop_wrap_structure() {
    let input = "for i := 1 to 10 do for j := 1 to 10 do writeln(i, j);";
    let (lines, tokens) = parse_with_loop_wrap(input);
    let result = reconstruct(&lines, &tokens);
    println!("{}", result);

    let occurrences_begin = result.matches("begin").count();
    assert_eq!(occurrences_begin, 2);
}

#[test]
fn test_loop_already_wrapped_no_double_wrap() {
    let input = "for i := 1 to 10 do begin writeln(i); end;";
    let (lines, tokens) = parse_with_loop_wrap(input);
    let result = reconstruct(&lines, &tokens);
    println!("{}", result);

    let occurrences_begin = result.matches("begin").count();
    assert_eq!(occurrences_begin, 1);
}

#[test]
fn test_loop_multiline_input() {
    let input = r#"
    for i := 0 to 10 do
      DoSomething;
    "#;
    let (lines, tokens) = parse_with_loop_wrap(input);
    let result = reconstruct(&lines, &tokens);
    println!("{}", result);

    assert!(result.contains("begin"));
    assert!(result.contains("end"));
}
