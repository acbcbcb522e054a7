//! Running a program with a text as its input and a text as its output.

use crate::kinds::{
    lemma_deliver_typed, lemma_initial_typed, lemma_step_typed, machine_typed, typed, unmixed,
};
use crate::loader::{load, piece_views, program_of};
use crate::machine::{
    advanced, deliver, initial, lemma_deliver_within, lemma_step_finds, lemma_step_within,
    local_step, resolvable, ret_step, step, within, Fault, FrameView, Machine, MachineView,
    Signal,
};
use crate::program::{
    function_index, lemma_function_index, AtomView, FunctionView, PlaceView, Program,
    ProgramView, StmtView,
};
use crate::text::{
    after, count_run, decimal, first, int_of, parse_int, push_char, push_integer, run_len,
    to_chars, CharClass, Class,
};
use vstd::prelude::*;
use vstd::string::*;

verus! {

/// How a run ended.
#[derive(Debug, Clone, Copy, PartialEq, Eq, Structural)]
pub enum End {
    /// The program ended with this status.
    Halted(i32),
    /// The program could not go on.
    Fault(Fault),
    /// The program was stopped after the number of steps that it was given.
    OutOfSteps,
}

/// What a run wrote, and how it ended.
#[derive(Debug)]
pub struct Run {
    pub stdout: String,
    pub end: End,
}

/// A run as a mathematical value.
pub ghost struct RunView {
    pub stdout: Seq<char>,
    pub end: End,
}

impl View for Run {
    type V = RunView;

    open spec fn view(&self) -> RunView {
        RunView { stdout: self.stdout@, end: self.end }
    }
}

/// The words of a text: what white space separates.
pub open spec fn words(s: Seq<char>) -> Seq<Seq<char>>
    decreases s.len(),
{
    let gap = run_len(s, CharClass::White) as int;
    let rest = s.skip(gap);
    let n = run_len(rest, CharClass::Visible) as int;
    if 0 < n <= rest.len() && 0 <= gap <= s.len() {
        seq![rest.take(n)] + words(rest.skip(n))
    } else {
        Seq::empty()
    }
}

/// Cuts a text into its words.
pub fn split_words(code: &[char]) -> (pieces: Vec<&[char]>)
    ensures
        piece_views(pieces@) == words(code@),
{
    let mut pieces: Vec<&[char]> = Vec::new();
    let mut rest = code;
    assert(piece_views(pieces@) =~= Seq::empty());
    loop
        invariant_except_break
            piece_views(pieces@) + words(rest@) == words(code@),
        ensures
            piece_views(pieces@) == words(code@),
        decreases rest@.len(),
    {
        let gap = count_run(rest, Class::White);
        let word = after(rest, gap);
        let n = count_run(word, Class::Visible);
        let ghost done = piece_views(pieces@);
        if n > 0 {
            pieces.push(first(word, n));
            assert(piece_views(pieces@) =~= done.push(word@.take(n as int)));
            assert(done + (seq![word@.take(n as int)] + words(word@.skip(n as int)))
                =~= done.push(word@.take(n as int)) + words(word@.skip(n as int)));
            rest = after(word, n);
        } else {
            assert(done + Seq::<Seq<char>>::empty() =~= done);
            break ;
        }
    }
    pieces
}

/// What a machine writes and how it ends when it is driven for at most
/// `steps` steps: each `%out` writes its integer in decimal and a line
/// feed, each `%input` takes the next word of the input, which has to be an
/// integer.
pub open spec fn run_from(
    program: ProgramView,
    machine: MachineView,
    inputs: Seq<Seq<char>>,
    next: int,
    out: Seq<char>,
    steps: nat,
) -> RunView
    decreases steps,
{
    if steps == 0 {
        RunView { stdout: out, end: End::OutOfSteps }
    } else {
        let (after, signal) = step(program, machine);
        match signal {
            Signal::Running => run_from(program, after, inputs, next, out, (steps - 1) as nat),
            Signal::Output(n) => run_from(
                program,
                after,
                inputs,
                next,
                out + decimal(n as int) + seq!['\n'],
                (steps - 1) as nat,
            ),
            Signal::NeedInput => if 0 <= next < inputs.len() {
                match int_of(inputs[next]) {
                    None => RunView { stdout: out, end: End::Fault(Fault::BadInput) },
                    Some(value) => {
                        let (fed, answer) = deliver(program, after, value);
                        match answer {
                            Signal::Fault(fault) => RunView { stdout: out, end: End::Fault(fault) },
                            _ => run_from(program, fed, inputs, next + 1, out, (steps - 1) as nat),
                        }
                    },
                }
            } else {
                RunView { stdout: out, end: End::Fault(Fault::BadInput) }
            },
            Signal::Halted(status) => RunView { stdout: out, end: End::Halted(status) },
            Signal::Fault(fault) => RunView { stdout: out, end: End::Fault(fault) },
        }
    }
}

/// What a program writes and how it ends when `main` is called and the
/// program is driven for at most `steps` steps, with the words of `stdin`
/// as its input.
pub open spec fn run_of(program: ProgramView, stdin: Seq<char>, steps: nat) -> RunView {
    match initial(program) {
        Err(fault) => RunView { stdout: Seq::empty(), end: End::Fault(fault) },
        Ok(machine) => run_from(program, machine, words(stdin), 0, Seq::empty(), steps),
    }
}

/// Runs a program from the start of `main` for at most `steps` steps, with
/// a text as its input, and returns what it wrote and how it ended.
pub fn run(program: &Program, stdin: &str, steps: u64) -> (r: Run)
    requires
        program.wf(),
    ensures
        r@ == run_of(program@, stdin@, steps as nat),
{
    let chars = to_chars(stdin);
    let inputs = split_words(chars.as_slice());
    let mut stdout = String::new();
    let mut machine = match Machine::start(program) {
        Err(fault) => {
            return Run { stdout, end: End::Fault(fault) };
        },
        Ok(machine) => machine,
    };
    let ghost texts = piece_views(inputs@);
    let mut next: usize = 0;
    let mut left = steps;
    while left > 0
        invariant
            program.wf(),
            machine.wf(program@),
            texts == piece_views(inputs@),
            next <= inputs.len(),
            run_of(program@, stdin@, steps as nat) == run_from(
                program@,
                machine@,
                texts,
                next as int,
                stdout@,
                left as nat,
            ),
        decreases left,
    {
        left -= 1;
        match machine.step(program) {
            Signal::Running => {},
            Signal::Output(n) => {
                let ghost before = stdout@;
                push_integer(&mut stdout, n);
                push_char(&mut stdout, '\n');
                assert(stdout@ =~= before + decimal(n as int) + seq!['\n']);
            },
            Signal::NeedInput => {
                if next >= inputs.len() {
                    return Run { stdout, end: End::Fault(Fault::BadInput) };
                }
                match parse_int(inputs[next]) {
                    None => {
                        return Run { stdout, end: End::Fault(Fault::BadInput) };
                    },
                    Some(value) => {
                        match machine.deliver(program, value) {
                            Signal::Fault(fault) => {
                                return Run { stdout, end: End::Fault(fault) };
                            },
                            _ => {
                                next += 1;
                            },
                        }
                    },
                }
            },
            Signal::Halted(status) => {
                return Run { stdout, end: End::Halted(status) };
            },
            Signal::Fault(fault) => {
                return Run { stdout, end: End::Fault(fault) };
            },
        }
    }
    Run { stdout, end: End::OutOfSteps }
}

/// A run is determined by the program, the input and the number of steps:
/// whatever two runs return on the same three is the same.
pub proof fn lemma_run_deterministic(
    program1: ProgramView,
    program2: ProgramView,
    stdin1: Seq<char>,
    stdin2: Seq<char>,
    steps1: nat,
    steps2: nat,
    run1: Run,
    run2: Run,
)
    requires
        program1 == program2,
        stdin1 == stdin2,
        steps1 == steps2,
        run1@ == run_of(program1, stdin1, steps1),
        run2@ == run_of(program2, stdin2, steps2),
    ensures
        run1@ == run2@,
{
}

/// What executing a text of intermediate representation gives: the run of
/// the program that the text denotes, or the message for a text that
/// denotes none.
pub open spec fn execution_of(ir: Seq<char>, stdin: Seq<char>, steps: nat) -> Result<
    RunView,
    Seq<char>,
> {
    match program_of(ir) {
        Ok(program) => Ok(run_of(program, stdin, steps)),
        Err(message) => Err(message),
    }
}

/// Reads a program from its text and runs it from the start of `main` for
/// at most `steps` steps, with a text as its input.
pub fn execute_ir(ir: &str, stdin: &str, steps: u64) -> (r: Result<Run, String>)
    ensures
        match execution_of(ir@, stdin@, steps as nat) {
            Ok(run) => r is Ok && r->Ok_0@ == run,
            Err(message) => r is Err && r->Err_0@ == message,
        },
{
    match load(ir) {
        Ok(program) => Ok(run(&program, stdin, steps)),
        Err(message) => Err(message),
    }
}

/// The program whose `main` writes one number and returns 0.
pub open spec fn printing(n: i32) -> ProgramView {
    ProgramView {
        functions: seq![
            FunctionView {
                name: "main"@,
                params: Seq::empty(),
                body: seq![
                    StmtView::Out(PlaceView::Plain(AtomView::Lit(n))),
                    StmtView::Ret(PlaceView::Plain(AtomView::Lit(0))),
                ],
            },
        ],
    }
}

/// Writing a number writes its decimal notation and a line feed, whatever
/// the number: the program that writes `n` and returns 0 writes just that
/// and ends with status 0, given two steps or more.
pub proof fn lemma_print_writes_number(n: i32, stdin: Seq<char>, steps: nat)
    requires
        steps >= 2,
    ensures
        run_of(printing(n), stdin, steps) == (RunView {
            stdout: decimal(n as int) + seq!['\n'],
            end: End::Halted(0),
        }),
{
    reveal(local_step);
    reveal(ret_step);
    let program = printing(n);
    let main = program.functions[0];
    let frame = FrameView { function: 0, pc: 0, env: Map::empty(), dst: None };
    let start = MachineView { frames: seq![frame], status: 0 };
    assert(function_index(program.functions, "main"@, 0) == Some(0int));
    assert(initial(program) == Ok::<MachineView, Fault>(start));
    let (second, signal) = step(program, start);
    assert(start.frames.last() == frame);
    assert(main.body[0] == StmtView::Out(PlaceView::Plain(AtomView::Lit(n))));
    assert(signal == Signal::Output(n));
    assert(second.frames =~= seq![advanced(frame)]);
    let (third, answer) = step(program, second);
    assert(second.frames.last() == advanced(frame));
    assert(main.body[1] == StmtView::Ret(PlaceView::Plain(AtomView::Lit(0))));
    assert(answer == Signal::Halted(0));
    let out = Seq::<char>::empty() + decimal(n as int) + seq!['\n'];
    assert(out =~= decimal(n as int) + seq!['\n']);
    assert(run_from(program, second, words(stdin), 0, out, (steps - 1) as nat) == (RunView {
        stdout: out,
        end: End::Halted(0),
    }));
}

/// Whether a run did not end for a label or a function that is not
/// defined.
pub open spec fn found_its_way(end: End) -> bool {
    end != End::Fault(Fault::UnknownLabel) && end != End::Fault(Fault::UnknownFunction)
}

/// In a program whose jumps and calls find what they name, no run ends for
/// a label or a function that is not defined.
pub proof fn lemma_run_finds(
    program: ProgramView,
    machine: MachineView,
    inputs: Seq<Seq<char>>,
    next: int,
    out: Seq<char>,
    steps: nat,
)
    requires
        resolvable(program),
        within(program, machine),
    ensures
        found_its_way(run_from(program, machine, inputs, next, out, steps).end),
    decreases steps,
{
    if steps > 0 {
        lemma_step_finds(program, machine);
        lemma_step_within(program, machine);
        let (after, signal) = step(program, machine);
        match signal {
            Signal::Running => {
                lemma_run_finds(program, after, inputs, next, out, (steps - 1) as nat);
            },
            Signal::Output(n) => {
                lemma_run_finds(
                    program,
                    after,
                    inputs,
                    next,
                    out + decimal(n as int) + seq!['\n'],
                    (steps - 1) as nat,
                );
            },
            Signal::NeedInput => {
                if 0 <= next < inputs.len() {
                    if let Some(value) = int_of(inputs[next]) {
                        lemma_deliver_within(program, after, value);
                        let (fed, answer) = deliver(program, after, value);
                        lemma_run_finds(program, fed, inputs, next + 1, out, (steps - 1) as nat);
                    }
                }
            },
            _ => {},
        }
    }
}

/// In a program with a function `main` whose jumps and calls find what they
/// name, no run from the start ends for a label or a function that is not
/// defined.
pub proof fn lemma_run_of_finds(program: ProgramView, stdin: Seq<char>, steps: nat)
    requires
        resolvable(program),
        function_index(program.functions, "main"@, 0) is Some,
    ensures
        found_its_way(run_of(program, stdin, steps).end),
{
    lemma_function_index(program.functions, "main"@, 0);
    if let Ok(machine) = initial(program) {
        assert(machine.frames[0].function == function_index(program.functions, "main"@, 0)->0);
        lemma_run_finds(program, machine, words(stdin), 0, Seq::empty(), steps);
    }
}

/// Whether a run did not end for an array where an integer has to stand,
/// or an integer where an array has to.
pub open spec fn kept_apart(end: End) -> bool {
    end matches End::Fault(fault) ==> unmixed(fault)
}

/// In a program that takes each name for an integer only or for an array
/// only, no run ends for a mix of the two.
pub proof fn lemma_run_typed(
    program: ProgramView,
    machine: MachineView,
    inputs: Seq<Seq<char>>,
    next: int,
    out: Seq<char>,
    steps: nat,
)
    requires
        typed(program),
        machine_typed(program, machine),
    ensures
        kept_apart(run_from(program, machine, inputs, next, out, steps).end),
    decreases steps,
{
    if steps > 0 {
        lemma_step_typed(program, machine);
        let (after, signal) = step(program, machine);
        match signal {
            Signal::Running => {
                lemma_run_typed(program, after, inputs, next, out, (steps - 1) as nat);
            },
            Signal::Output(n) => {
                lemma_run_typed(
                    program,
                    after,
                    inputs,
                    next,
                    out + decimal(n as int) + seq!['\n'],
                    (steps - 1) as nat,
                );
            },
            Signal::NeedInput => {
                if 0 <= next < inputs.len() {
                    if let Some(value) = int_of(inputs[next]) {
                        lemma_deliver_typed(program, after, value);
                        let (fed, answer) = deliver(program, after, value);
                        lemma_run_typed(program, fed, inputs, next + 1, out, (steps - 1) as nat);
                    }
                }
            },
            _ => {},
        }
    }
}

/// In a program that takes each name for an integer only or for an array
/// only, no run from the start ends for a mix of the two.
pub proof fn lemma_run_of_typed(program: ProgramView, stdin: Seq<char>, steps: nat)
    requires
        typed(program),
    ensures
        kept_apart(run_of(program, stdin, steps).end),
{
    lemma_initial_typed(program);
    if let Ok(machine) = initial(program) {
        lemma_run_typed(program, machine, words(stdin), 0, Seq::empty(), steps);
    }
}

} // verus!
