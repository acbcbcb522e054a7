use minilang::compile;
use minilang::lex;
use minilang::parser::parse_program;

#[test]
fn arithmetic_lowers_to_temporaries() {
    let ir = compile("func main(){ int a; a = 1 + 2 * 3; print(a); return 0; }").unwrap();
    assert_eq!(
        ir,
        "%func main ()\n%int a\n%int _temp2\n%int _temp1\n%mult _temp1, 2, 3\n%add _temp2, 1, _temp1\n%mov a, _temp2\n%out a\n%ret 0\n%endfunc\n\n"
    );
}

#[test]
fn missing_main_is_rejected() {
    assert_eq!(compile("func f(){ return 0; }").unwrap_err(), "Missing 'main' function");
}

#[test]
fn undeclared_variable_is_rejected() {
    assert_eq!(
        compile("func main(){ x = 1; return 0; }").unwrap_err(),
        "Variable not declared: x"
    );
    assert_eq!(
        compile("func main(){ int y; y = x; return 0; }").unwrap_err(),
        "Error. undeclared variable x"
    );
}

#[test]
fn duplicate_declaration_is_rejected() {
    assert_eq!(
        compile("func main(){ int x; int x; return 0; }").unwrap_err(),
        "Found a duplicate variable x"
    );
    assert_eq!(
        compile("func main(){ int[2] a; int[3] a; return 0; }").unwrap_err(),
        "Found a duplicate array variable a"
    );
    assert_eq!(
        compile("func f(int p){ int p; return 0; } func main(){ return 0; }").unwrap_err(),
        "Found a duplicate variable p"
    );
}

#[test]
fn a_name_is_a_variable_or_an_array_not_both() {
    assert_eq!(
        compile("func main(){ int a; int[1] a; return 0; }").unwrap_err(),
        "Found a duplicate array variable a"
    );
    assert_eq!(
        compile("func main(){ int[1] a; int a; return 0; }").unwrap_err(),
        "Found a duplicate variable a"
    );
}

#[test]
fn break_outside_a_loop_is_rejected() {
    assert_eq!(
        compile("func main(){ break; return 0; }").unwrap_err(),
        "`break` statement not within loop"
    );
    assert_eq!(
        compile("func main(){ continue; return 0; }").unwrap_err(),
        "`continue` statement not within loop"
    );
}

#[test]
fn array_of_size_zero_is_rejected() {
    assert_eq!(
        compile("func main(){ int[0] a; return 0; }").unwrap_err(),
        "Arrays have to be at least one element long"
    );
}

#[test]
fn unknown_character_is_rejected() {
    assert_eq!(compile("func main(){ int a; a = 1 ^ 2; }").unwrap_err(), "Unidentified symbol ^");
}

#[test]
fn undeclared_and_duplicate_functions_are_rejected() {
    assert_eq!(
        compile("func main(){ int r; r = f(1); return 0; }").unwrap_err(),
        "Function f not initialised"
    );
    assert_eq!(
        compile("func main(){ return 0; } func main(){ return 0; }").unwrap_err(),
        "Error: Function main already declared"
    );
}

#[test]
fn syntax_errors_name_what_is_missing() {
    assert_eq!(compile("func main(){ int a }").unwrap_err(), "expect ';' closing statement");
    assert_eq!(compile("func main(){ int a; a = (1 + 2; }").unwrap_err(), "expected ')'");
    assert_eq!(compile("func main(){ while 1 < 2 print(1); }").unwrap_err(), "expected '{'");
    assert_eq!(compile("main(){ }").unwrap_err(), "functions must begin with func");
    assert_eq!(compile("func main(){ int a; a = 1 +").unwrap_err(), "expected a token, but got nothing");
    assert_eq!(compile("func main(){ 5; }").unwrap_err(), "invalid statement.");
    assert_eq!(compile("").unwrap_err(), "Missing 'main' function");
}

#[test]
fn control_flow_lowers_to_labels_and_jumps() {
    let ir = compile("func main(){ int i; while i < 2 { if i == 1 { break; } else { continue; } } return 0; }").unwrap();
    assert_eq!(
        ir,
        "%func main ()\n%int i\n:beginloop1\n%int _temp1\n%lt _temp1, i, 2\n%branch_ifn _temp1, :endloop1\n%int _temp2\n%eq _temp2, i, 1\n%branch_if _temp2, :iftrue1\n%jmp :else1\n:iftrue1\n%jmp :endloop1\n%jmp :endif1\n:else1\n%jmp :beginloop1\n:endif1\n%jmp :beginloop1\n:endloop1\n%ret 0\n%endfunc\n\n"
    );
}

#[test]
fn calls_and_arrays_lower_to_temporaries() {
    let ir = compile("func f(int x, int y){ int[2] a; a[x] = y; return a[0]; } func main(){ print(f(1, 2 + 3)); }").unwrap();
    assert_eq!(
        ir,
        "%func f (%int x, %int y)\n%int[] a, 2\n%mov [a + x], y\n%int _temp1\n%mov _temp1, [a + 0]\n%ret _temp1\n%endfunc\n\n%func main ()\n%int _temp2\n%add _temp2, 2, 3\n%int _temp3\n%call _temp3, f(1, _temp2)\n%out _temp3\n%endfunc\n\n"
    );
}

#[test]
fn every_statement_form_reports_what_it_misses() {
    let cases = [
        ("func main(){ int [x] a; }", "Error: expected Token::Num as length of array"),
        ("func main(){ int [2 a; }", "expect ']' closing array size declaration"),
        ("func main(){ int [2] 3; }", "expected identifier for array name"),
        ("func main(){ int 3; }", "expected '[' for array declaration or identifier for int variable"),
        ("func main(){ int[2] a; a[0 = 1; }", "expected ']'"),
        ("func main(){ int[2] a; a[0] 1; }", "expected '=' assignment operator"),
        ("func main(){ int x; x 1; }", "expected '=' assignment operator"),
        ("func main(){ a[0] = 1; }", "Array 'a' not declared"),
        ("func main(){ int x; x = a[0]; }", "Array a undeclared"),
        ("func main(){ int x; x = 1 }", "expect ';' closing statement"),
        ("func main(){ return 1 }", "expect ';' closing statement"),
        ("func main(){ print 1; }", "expect '(' opening statement"),
        ("func main(){ print(1; }", "expect ')' closing statement"),
        ("func main(){ read(1) }", "expect ';' closing statement"),
        ("func main(){ while 1 < 2 { break } }", "expect ';' after 'break'"),
        ("func main(){ while 1 < 2 { continue } }", "expect ';' after 'continue'"),
        ("func main(){ while 1 < 2 { print(1); ", "expected a token, but got nothing"),
        ("func main(){ if 1 < 2 { print(1); ", "expected a token, but got nothing"),
        ("func main(){ if 1 < 2 { } else print(1); }", "expected '{'"),
        ("func main(){ if 1 < 2 { } else { print(1); ", "expected a token, but got nothing"),
        ("func main(){ if 1 + 2 { } }", "expect boolean operator (i.e. \"<\" or \"==\")..."),
        ("func main(){ int x; x = ; }", "invalid expression"),
        ("func main(){ int x; x = main(1 2); }", "expected ',' or ')' in function call"),
        ("func 3(){ }", "functions must have a function identifier"),
        ("func main{ }", "expected '('"),
        ("func main(x){ }", "expected 'int' keyword or ')' token"),
        ("func main(int 3){ }", "expected ident function parameter"),
        ("func main(int a int b){ }", "expected ',' or ')'"),
        ("func main(int a, int a){ }", "Found a duplicate variable a"),
        ("func main() return 0; }", "expected '{' for function"),
        ("func main(){ return 0; ", "expected a token, but got nothing"),
        ("func main(){ return 0; } }", "functions must begin with func"),
    ];
    for (source, message) in cases {
        assert_eq!(compile(source).unwrap_err(), message, "{}", source);
    }
}

#[test]
fn parsing_stops_at_the_end_of_the_tokens() {
    let tokens = lex("func main(){ return 0; }").unwrap();
    let mut index = 0;
    assert!(parse_program(&tokens, &mut index).is_ok());
    assert_eq!(index, tokens.len());
    let tokens = lex("func main(){ return 0 }").unwrap();
    let mut index = 0;
    assert!(parse_program(&tokens, &mut index).is_err());
    assert_eq!(index, 8);
}

#[test]
fn deeply_nested_blocks_get_their_own_labels() {
    let ir = compile("func main(){ int i; while i < 1 { while i < 2 { if i == 0 { if i == 1 { break; } } i = i + 1; } } return 0; }").unwrap();
    for label in [":beginloop1", ":endloop1", ":beginloop2", ":endloop2", ":iftrue1", ":else1", ":endif1", ":iftrue2", ":else2", ":endif2"] {
        let line = format!("{}\n", label);
        assert_eq!(ir.matches(&format!("\n{}", line)).count(), 1, "{}", label);
    }
    assert!(ir.contains("%jmp :endloop2\n"));
    assert!(!ir.contains("%jmp :endloop1\n"));
}
