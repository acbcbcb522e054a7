use minilang::execute_ir;
use minilang::loader::load;
use minilang::machine::{Fault, Machine, Signal};
use minilang::runner::{run, End};

fn end_of(ir: &str) -> End {
    execute_ir(ir, "", 10_000).unwrap().end
}

fn main_of(body: &str) -> String {
    format!("%func main ()\n{}%endfunc\n\n", body)
}

#[test]
fn undeclared_name_is_a_fault() {
    assert_eq!(end_of(&main_of("%out x\n")), End::Fault(Fault::UndeclaredName));
    assert_eq!(end_of(&main_of("%mov x, 1\n")), End::Fault(Fault::UndeclaredName));
    assert_eq!(end_of(&main_of("%mov [a + 0], 1\n")), End::Fault(Fault::UndeclaredName));
}

#[test]
fn kinds_are_not_mixed() {
    assert_eq!(end_of(&main_of("%int[] a, 2\n%out a\n")), End::Fault(Fault::NotAScalar));
    assert_eq!(end_of(&main_of("%int[] a, 2\n%mov a, 1\n")), End::Fault(Fault::NotAScalar));
    assert_eq!(end_of(&main_of("%int x\n%out [x + 0]\n")), End::Fault(Fault::NotAnArray));
    assert_eq!(end_of(&main_of("%int x\n%mov [x + 0], 1\n")), End::Fault(Fault::NotAnArray));
}

#[test]
fn index_has_to_be_within_the_array() {
    assert_eq!(end_of(&main_of("%int[] a, 2\n%out [a + 2]\n")), End::Fault(Fault::IndexOutOfRange));
    assert_eq!(end_of(&main_of("%int[] a, 2\n%mov [a + -1], 5\n")), End::Fault(Fault::IndexOutOfRange));
    let run = execute_ir(&main_of("%int[] a, 2\n%mov [a + 1], 5\n%out [a + 1]\n%out [a + 0]\n"), "", 100).unwrap();
    assert_eq!(run.stdout, "5\n0\n");
    assert_eq!(run.end, End::Halted(0));
}

#[test]
fn a_literal_cannot_be_written_to() {
    assert_eq!(end_of(&main_of("%mov 1, 2\n")), End::Fault(Fault::NotWritable));
}

#[test]
fn jumps_and_calls_have_to_find_their_targets() {
    assert_eq!(end_of(&main_of("%jmp :nowhere\n")), End::Fault(Fault::UnknownLabel));
    assert_eq!(end_of(&main_of("%int t\n%call t, f()\n")), End::Fault(Fault::UnknownFunction));
    assert_eq!(end_of("%func f ()\n%ret 0\n%endfunc\n\n"), End::Fault(Fault::UnknownFunction));
    let two = "%func f (%int x)\n%ret x\n%endfunc\n\n%func main ()\n%int t\n%call t, f(1, 2)\n%endfunc\n\n";
    assert_eq!(end_of(two), End::Fault(Fault::WrongArgumentCount));
    assert_eq!(end_of("%func main (%int x)\n%endfunc\n\n"), End::Fault(Fault::WrongArgumentCount));
}

#[test]
fn a_branch_that_is_not_taken_needs_no_label() {
    let run = execute_ir(&main_of("%branch_if 0, :nowhere\n%branch_ifn 1, :nowhere\n%out 1\n"), "", 100).unwrap();
    assert_eq!(run.stdout, "1\n");
    assert_eq!(run.end, End::Halted(0));
}

#[test]
fn labels_are_found_forward_and_backward() {
    let ir = main_of("%int i\n:again\n%out i\n%add i, i, 1\n%int t\n%lt t, i, 3\n%branch_if t, :again\n%jmp :done\n%out 99\n:done\n%ret i\n");
    let run = execute_ir(&ir, "", 1000).unwrap();
    assert_eq!(run.stdout, "0\n1\n2\n");
    assert_eq!(run.end, End::Halted(3));
}

#[test]
fn each_call_has_its_own_variables() {
    let ir = "%func f (%int x)\n%int y\n%add y, x, 1\n%mov x, 100\n%ret y\n%endfunc\n\n%func main ()\n%int x\n%mov x, 5\n%int y\n%call y, f(x)\n%out x\n%out y\n%endfunc\n\n";
    let run = execute_ir(ir, "", 1000).unwrap();
    assert_eq!(run.stdout, "5\n6\n");
}

#[test]
fn a_declaration_sets_to_zero_again() {
    let ir = main_of("%int x\n%mov x, 7\n%int x\n%out x\n%int[] a, 1\n%mov [a + 0], 3\n%int[] a, 2\n%out [a + 0]\n%out [a + 1]\n");
    let run = execute_ir(&ir, "", 1000).unwrap();
    assert_eq!(run.stdout, "0\n0\n0\n");
}

#[test]
fn malformed_text_does_not_load() {
    assert_eq!(execute_ir("%func main ()\n%frobnicate x\n%endfunc\n", "", 10).unwrap_err(), "Malformed instruction: %frobnicate x");
    assert_eq!(execute_ir("%func main ()\n%add x, 1\n%endfunc\n", "", 10).unwrap_err(), "Malformed instruction: %add x, 1");
    assert_eq!(execute_ir("%func main ()\n  %int[] a, 0  \n%endfunc\n", "", 10).unwrap_err(), "Malformed instruction: %int[] a, 0");
    assert_eq!(execute_ir("%func main\n%endfunc\n", "", 10).unwrap_err(), "Malformed instruction: %func main");
    assert_eq!(execute_ir("%out 1\n", "", 10).unwrap_err(), "Misplaced instruction: %out 1");
    assert_eq!(execute_ir("%endfunc\n", "", 10).unwrap_err(), "Misplaced instruction: %endfunc");
    assert_eq!(execute_ir("%func f ()\n%func g ()\n", "", 10).unwrap_err(), "Misplaced instruction: %func g ()");
    assert_eq!(execute_ir("%func main ()\n%out 1\n", "", 10).unwrap_err(), "Function without %endfunc");
}

#[test]
fn blank_lines_and_spaces_count_for_nothing() {
    let run = execute_ir("\n\n  %func main ( )  \n\n   %out   1\n%out 2 \n\n%endfunc", "", 10).unwrap();
    assert_eq!(run.stdout, "1\n2\n");
}

#[test]
fn empty_text_has_no_main() {
    assert_eq!(end_of(""), End::Fault(Fault::UnknownFunction));
}

#[test]
fn the_machine_can_be_driven_step_by_step() {
    let program = load(&main_of("%int x\n%input x\n%out x\n%ret x\n")).unwrap();
    let mut machine = Machine::start(&program).unwrap();
    assert_eq!(machine.deliver(&program, 1), Signal::Fault(Fault::NoInputWanted));
    assert_eq!(machine.step(&program), Signal::Running);
    assert_eq!(machine.step(&program), Signal::NeedInput);
    assert_eq!(machine.step(&program), Signal::NeedInput);
    assert_eq!(machine.deliver(&program, 41), Signal::Running);
    assert_eq!(machine.step(&program), Signal::Output(41));
    assert_eq!(machine.step(&program), Signal::Halted(41));
    assert_eq!(machine.step(&program), Signal::Halted(41));
    assert_eq!(machine.deliver(&program, 1), Signal::Fault(Fault::NoInputWanted));
}

#[test]
fn input_can_go_to_an_array_element() {
    let program = load(&main_of("%int[] a, 2\n%input [a + 1]\n%input [a + 2]\n")).unwrap();
    let mut machine = Machine::start(&program).unwrap();
    assert_eq!(machine.step(&program), Signal::Running);
    assert_eq!(machine.step(&program), Signal::NeedInput);
    assert_eq!(machine.deliver(&program, 5), Signal::Running);
    assert_eq!(machine.step(&program), Signal::NeedInput);
    assert_eq!(machine.deliver(&program, 5), Signal::Fault(Fault::IndexOutOfRange));
    assert_eq!(machine.step(&program), Signal::NeedInput);
}

#[test]
fn a_fault_leaves_the_machine_where_it_was() {
    let program = load(&main_of("%int x\n%div x, 1, 0\n")).unwrap();
    let mut machine = Machine::start(&program).unwrap();
    assert_eq!(machine.step(&program), Signal::Running);
    assert_eq!(machine.step(&program), Signal::Fault(Fault::DivisionByZero));
    assert_eq!(machine.step(&program), Signal::Fault(Fault::DivisionByZero));
    assert_eq!(machine.frames.len(), 1);
    assert_eq!(machine.frames[0].pc, 1);
}

#[test]
fn run_takes_a_loaded_program() {
    let program = load(&main_of("%int x\n%input x\n%mult x, x, x\n%out x\n")).unwrap();
    let first = run(&program, " 12 ", 100);
    assert_eq!(first.stdout, "144\n");
    assert_eq!(first.end, End::Halted(0));
    let second = run(&program, "+3", 100);
    assert_eq!(second.stdout, "9\n");
    let third = run(&program, "3", 3);
    assert_eq!(third.stdout, "");
    assert_eq!(third.end, End::OutOfSteps);
}

#[test]
fn every_fault_has_its_words() {
    assert_eq!(Fault::UndeclaredName.describe(), "use of a name that is not declared");
    assert_eq!(Fault::NotAScalar.describe(), "an array stands where an integer has to");
    assert_eq!(Fault::NotAnArray.describe(), "an integer stands where an array has to");
    assert_eq!(Fault::IndexOutOfRange.describe(), "array index out of range");
    assert_eq!(Fault::DivisionByZero.describe(), "division by zero");
    assert_eq!(Fault::NotWritable.describe(), "a literal cannot be written to");
    assert_eq!(Fault::UnknownLabel.describe(), "jump to an undefined label");
    assert_eq!(Fault::UnknownFunction.describe(), "call to an undefined function");
    assert_eq!(Fault::WrongArgumentCount.describe(), "wrong number of arguments");
    assert_eq!(Fault::MissingReturn.describe(), "function ended without a return");
    assert_eq!(Fault::BadInput.describe(), "the input is not an integer");
    assert_eq!(Fault::NoInputWanted.describe(), "no input is waited for");
}
