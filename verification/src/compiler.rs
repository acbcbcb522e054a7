//! The compiler as one function, from source text to the text of the
//! intermediate representation, and the interpreter as another, from source
//! text and input to what the program writes and how it ends.

use crate::contract::{lemma_program_reads_back, lowered};
use crate::grammar::program;
use crate::ir::{render, Instr};
use crate::kinds::typed;
use crate::laws::{balanced, unique};
use crate::loader::program_of;
use crate::machine::resolvable;
use crate::parser::{code_is, parse_program};
use crate::program::function_index;
use crate::runner::{
    execute_ir, found_its_way, kept_apart, lemma_run_of_finds, lemma_run_of_typed, run_of, Run,
    RunView,
};
use crate::scanner::{lemma_lex_names, lex, spec_lex};
use vstd::string::*;
use vstd::prelude::*;

verus! {

/// The code that a source text is compiled to, or the message of the first
/// error: that of the scanner, or else that of the parser.
pub open spec fn compiled(source: Seq<char>) -> Result<Seq<Instr>, Seq<char>> {
    match spec_lex(source) {
        Err(message) => Err(message),
        Ok(tokens) => program(tokens, 0).result,
    }
}

/// Compiles a source text: scans it and parses the tokens as a program.
/// Returns the text of the program's code, or the message of the first
/// error. The text that is returned can be read as a program, the one that
/// the code stands for, and in that program every jump finds its label,
/// every call its function, and every name is an integer only or an array
/// only.
pub fn compile(source: &str) -> (result: Result<String, String>)
    ensures
        code_is(result, compiled(source@)),
        compiled(source@) matches Ok(code) ==> {
            &&& unique(code)
            &&& balanced(code)
            &&& program_of(render(code)) == lowered(code)
            &&& lowered(code) matches Ok(found) && resolvable(found) && typed(found)
                && function_index(found.functions, "main"@, 0) is Some
        },
{
    let tokens = match lex(source) {
        Err(message) => {
            return Err(message);
        },
        Ok(tokens) => tokens,
    };
    proof {
        lemma_lex_names(source@);
        lemma_program_reads_back(spec_lex(source@)->Ok_0, 0);
    }
    let mut index: usize = 0;
    parse_program(&tokens, &mut index)
}

/// What compiling and running a source text gives: the message of the
/// first error of the scanner or the parser, or else the run of the program
/// that the code stands for.
pub open spec fn interpreted(source: Seq<char>, stdin: Seq<char>, steps: nat) -> Result<
    RunView,
    Seq<char>,
> {
    match compiled(source) {
        Err(message) => Err(message),
        Ok(code) => Ok(run_of(lowered(code)->Ok_0, stdin, steps)),
    }
}

/// Compiles a source text and runs the program from the start of `main`
/// for at most `steps` steps, with a text as its input. A text that does
/// not compile is not run: the message of its first error is returned.
/// What compiles is run, and the run does not end for a label or a function
/// that is not defined, nor for an array where an integer has to stand or
/// an integer where an array has to.
pub fn interpret(source: &str, stdin: &str, steps: u64) -> (result: Result<Run, String>)
    ensures
        match interpreted(source@, stdin@, steps as nat) {
            Ok(run) => result is Ok && result->Ok_0@ == run && found_its_way(run.end)
                && kept_apart(run.end),
            Err(message) => result is Err && result->Err_0@ == message,
        },
{
    let ir = match compile(source) {
        Err(message) => {
            return Err(message);
        },
        Ok(ir) => ir,
    };
    proof {
        let found = lowered(compiled(source@)->Ok_0)->Ok_0;
        lemma_run_of_finds(found, stdin@, steps as nat);
        lemma_run_of_typed(found, stdin@, steps as nat);
    }
    execute_ir(ir.as_str(), stdin, steps)
}

} // verus!
