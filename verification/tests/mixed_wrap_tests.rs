use pasfmt_core::inspect::{parse_with_all_wrap, reconstruct};

#[test]
fn test_nested_if_in_for() {
    let input = "for i := 0 to 10 do if true then DoSomething;";
    let (lines, tokens) = parse_with_all_wrap(input);
    let result = reconstruct(&lines, &tokens);
    println!("{}", result);
}

#[test]
fn test_nested_if_in_while() {
    let input = "while true do if true then DoSomething;";
    let (lines, tokens) = parse_with_all_wrap(input);
    let result = reconstruct(&lines, &tokens);
    println!("{}", result);
}

#[test]
fn nested_if_in_for_is_laid_out_by_level() {
    let input = "for i := 0 to 10 do if true then DoSomething;";
    let (lines, tokens) = parse_with_all_wrap(input);
    assert_eq!(
        reconstruct(&lines, &tokens),
        "L0(0): for i := 0 to 10 do\n\
         L1(0): begin\n\
         L2(1):   if true then\n\
         L3(1):   begin\n\
         L4(2):     DoSomething ;\n\
         L5(1):   end ;\n\
         L6(0): end ;\n\
         L7(0): \n"
    );
}

#[test]
fn nested_if_in_while_is_laid_out_by_level() {
    let input = "while true do if true then DoSomething;";
    let (lines, tokens) = parse_with_all_wrap(input);
    assert_eq!(
        reconstruct(&lines, &tokens),
        "L0(0): while true do\n\
         L1(0): begin\n\
         L2(1):   if true then\n\
         L3(1):   begin\n\
         L4(2):     DoSomething ;\n\
         L5(1):   end ;\n\
         L6(0): end ;\n\
         L7(0): \n"
    );
}
