use minilang::compile;
use minilang::execute_ir;
use minilang::interpret;
use minilang::machine::Fault;
use minilang::runner::End;

fn output(source: &str, stdin: &str) -> (String, End) {
    let ir = compile(source).unwrap();
    let run = execute_ir(&ir, stdin, 1_000_000).unwrap();
    (run.stdout, run.end)
}

#[test]
fn arithmetic() {
    let (out, end) = output("func main(){ int a; a = 1 + 2 * 3; print(a); return 0; }", "");
    assert_eq!(out, "7\n");
    assert_eq!(end, End::Halted(0));
}

#[test]
fn while_with_break() {
    let (out, _) = output(
        "func main(){ int i; i = 0; while i < 10 { if i == 5 { break; } i = i + 1; } print(i); return 0; }",
        "",
    );
    assert_eq!(out, "5\n");
}

#[test]
fn if_else() {
    let (out, _) = output(
        "func main(){ int x; x = 3; if x > 2 { print(1); } else { print(0); } return 0; }",
        "",
    );
    assert_eq!(out, "1\n");
}

#[test]
fn array_sum() {
    let (out, _) = output(
        "func main(){ int[3] a; a[0] = 10; a[1] = 20; a[2] = 30; int s; s = a[0] + a[1] + a[2]; print(s); return 0; }",
        "",
    );
    assert_eq!(out, "60\n");
}

#[test]
fn function_call() {
    let (out, _) = output(
        "func add(int x, int y){ return x + y; } func main(){ int r; r = add(40, 2); print(r); return 0; }",
        "",
    );
    assert_eq!(out, "42\n");
}

#[test]
fn continue_skips_the_rest_of_the_body() {
    let (out, _) = output(
        "func main(){ int i; int s; i = 0; s = 0; while i < 5 { i = i + 1; if i == 3 { continue; } s = s + i; } print(s); return 0; }",
        "",
    );
    assert_eq!(out, "12\n");
}

#[test]
fn read_takes_words_of_the_input() {
    let (out, end) = output(
        "func main(){ int a; int b; read(a); read(b); print(a - b); return 7; }",
        "  12\n-30 ",
    );
    assert_eq!(out, "42\n");
    assert_eq!(end, End::Halted(7));
}

#[test]
fn malformed_input_is_fatal() {
    let (out, end) = output("func main(){ int a; read(a); print(a); return 0; }", "twelve");
    assert_eq!(out, "");
    assert_eq!(end, End::Fault(Fault::BadInput));
    let (_, end) = output("func main(){ int a; read(a); print(a); return 0; }", "");
    assert_eq!(end, End::Fault(Fault::BadInput));
}

#[test]
fn division_by_zero_is_fatal() {
    let (out, end) = output("func main(){ int a; a = 0; print(1); print(5 / a); return 0; }", "");
    assert_eq!(out, "1\n");
    assert_eq!(end, End::Fault(Fault::DivisionByZero));
    let (_, end) = output("func main(){ int a; a = 0; print(5 % a); return 0; }", "");
    assert_eq!(end, End::Fault(Fault::DivisionByZero));
}

#[test]
fn array_bounds() {
    let (out, end) = output("func main(){ int[1] a; a[0] = 9; print(a[0]); return 0; }", "");
    assert_eq!(out, "9\n");
    assert_eq!(end, End::Halted(0));
    let (out, end) = output(
        "func main(){ int[3] a; a[2] = 4; print(a[2]); a[3] = 1; print(5); return 0; }",
        "",
    );
    assert_eq!(out, "4\n");
    assert_eq!(end, End::Fault(Fault::IndexOutOfRange));
    let (_, end) = output("func main(){ int[3] a; print(a[0 - 1]); return 0; }", "");
    assert_eq!(end, End::Fault(Fault::IndexOutOfRange));
}

#[test]
fn literals_round_trip() {
    let (out, _) = output("func main(){ print(0); print(2147483647); print(0 - 2147483647 - 1); return 0; }", "");
    assert_eq!(out, "0\n2147483647\n-2147483648\n");
}

#[test]
fn arithmetic_wraps_and_division_truncates() {
    let (out, _) = output(
        "func main(){ print(2147483647 + 1); print((0 - 7) / 2); print((0 - 7) % 2); print(7 / (0 - 2)); print(7 % (0 - 2)); return 0; }",
        "",
    );
    assert_eq!(out, "-2147483648\n-3\n-1\n-3\n1\n");
}

#[test]
fn break_in_nested_if_leaves_the_innermost_loop() {
    let (out, _) = output(
        "func main(){ int i; int j; int n; i = 0; n = 0; while i < 3 { j = 0; while j < 10 { if j == 2 { if i < 5 { break; } } j = j + 1; n = n + 1; } i = i + 1; } print(n); print(i); return 0; }",
        "",
    );
    assert_eq!(out, "6\n3\n");
}

#[test]
fn multiple_return_paths_and_recursion() {
    let source = "func fact(int n){ if n <= 1 { return 1; } return n * fact(n - 1); } func main(){ print(fact(5)); print(fact(0)); return 0; }";
    let (out, end) = output(source, "");
    assert_eq!(out, "120\n1\n");
    assert_eq!(end, End::Halted(0));
}

#[test]
fn main_may_end_without_return_and_others_may_not() {
    let (out, end) = output("func main(){ print(3); }", "");
    assert_eq!(out, "3\n");
    assert_eq!(end, End::Halted(0));
    let (_, end) = output("func f(){ print(1); } func main(){ int r; r = f(); return 0; }", "");
    assert_eq!(end, End::Fault(Fault::MissingReturn));
}

#[test]
fn a_loop_that_never_ends_runs_out_of_steps() {
    let ir = compile("func main(){ while 1 == 1 { print(1); } return 0; }").unwrap();
    let run = execute_ir(&ir, "", 6).unwrap();
    assert_eq!(run.end, End::OutOfSteps);
    assert_eq!(run.stdout, "1\n");
}

#[test]
fn comparisons_give_one_or_zero() {
    let source = "func main(){ int t; if 1 < 2 { print(1); } if 2 <= 2 { print(2); } if 3 > 2 { print(3); } if 2 >= 3 { print(4); } if 2 != 2 { print(5); } if 2 == 2 { print(6); } return 0; }";
    let (out, _) = output(source, "");
    assert_eq!(out, "1\n2\n3\n6\n");
}

#[test]
fn execution_is_repeatable() {
    let source = "func main(){ int a; read(a); while a > 0 { print(a); a = a - 1; } return a; }";
    let first = output(source, "3");
    let second = output(source, "3");
    assert_eq!(first, second);
    assert_eq!(first.0, "3\n2\n1\n");
}

#[test]
fn interpret_compiles_and_runs() {
    let run = interpret("func main(){ int a; read(a); print(a * a); return a; }", "12", 1000).unwrap();
    assert_eq!(run.stdout, "144\n");
    assert_eq!(run.end, End::Halted(12));
}

#[test]
fn what_does_not_compile_is_not_run() {
    assert_eq!(interpret("func main(){ print(1) }", "", 1000).unwrap_err(), "expect ';' closing statement");
    assert_eq!(interpret("func main(){ print(1 $ 2); }", "", 1000).unwrap_err(), "Unidentified symbol $");
    assert_eq!(interpret("func f(){ return 1; }", "", 1000).unwrap_err(), "Missing 'main' function");
}

#[test]
fn what_compiles_loads() {
    let sources = [
        "func main(){ }",
        "func f(int a, int b){ int[4] t; t[a] = b; return t[a] % 7; } func main(){ int x; x = f(1, 2) * (3 - f(0, 9)); if x != 0 { read(x); } else { while x < 3 { x = x + 1; continue; } } print(x); return x; }",
        "func main(){ int while1; while1 = 2; print(while1); }",
    ];
    for source in sources {
        let ir = compile(source).unwrap();
        assert!(execute_ir(&ir, "5", 1000).is_ok(), "{}", source);
    }
}

#[test]
fn what_compiles_keeps_integers_and_arrays_apart() {
    let sources = [
        "func main(){ int[3] a; int i; i = 0; while i < 3 { a[i] = i * i; i = i + 1; } print(a[2] + a[1]); return a[0]; }",
        "func f(int a){ int[2] t; t[0] = a; t[1] = t[0] + a; return t[1]; } func main(){ int x; x = f(f(4)); print(x); }",
        "func main(){ int[2] a; read(a[1]); print(a[1]); print(a[a[0]]); }",
    ];
    let mixes = [
        End::Fault(Fault::NotAScalar),
        End::Fault(Fault::NotAnArray),
        End::Fault(Fault::UnknownLabel),
        End::Fault(Fault::UnknownFunction),
    ];
    for source in sources {
        let run = interpret(source, "1 2 3", 1000).unwrap();
        assert!(!mixes.contains(&run.end), "{}", source);
        assert!(matches!(run.end, End::Halted(_)), "{}", source);
    }
}

#[test]
fn text_that_mixes_integers_and_arrays_faults() {
    let scalar = "%func main()\n%int[] a, 2\n%out a\n%endfunc\n";
    assert_eq!(execute_ir(scalar, "", 100).unwrap().end, End::Fault(Fault::NotAScalar));
    let array = "%func main()\n%int a\n%mov [a + 0], 1\n%endfunc\n";
    assert_eq!(execute_ir(array, "", 100).unwrap().end, End::Fault(Fault::NotAnArray));
}
