//! Integers and arrays do not mix: in a program that uses each name of a
//! function as an integer only or as an array only, no step fails for an
//! array where an integer has to stand or an integer where an array has to.

use crate::contract::{all_names, lower_line, lower_operand, lower_plain, lower_unit};
use crate::grammar::{Counters, Scope};
use crate::ir::{temp_name, Instr, Operand};
use crate::laws::declared_once;
use crate::machine::{
    apply, bind, call_step, deliver, initial, local_step, read, read_all, ret_step, step,
    within, Env, Fault, FrameView, MachineView, Signal, ValueView,
};
use crate::program::{
    function_index, lemma_function_index, AtomView, FunctionView, PlaceView, ProgramView,
    StmtView,
};
use crate::sound::{
    closed, declared_arrays, declared_vars, instr_ok, is_array_of, lemma_declared_contains,
    operand_ok,
};
use crate::text::is_name;
use vstd::prelude::*;

verus! {

/// Whether a statement declares the array of a name.
pub open spec fn declares(stmt: StmtView, array: Seq<char>) -> bool {
    stmt matches StmtView::Array(name, _) && name == array
}

/// Whether a name is that of an array of a body: a statement of the body
/// declares it.
pub open spec fn is_array_in(body: Seq<StmtView>, name: Seq<char>) -> bool {
    exists|k: int| 0 <= k < body.len() && declares(#[trigger] body[k], name)
}

/// Whether an atom, if it is a name, is no array of the body.
pub open spec fn atom_typed(body: Seq<StmtView>, atom: AtomView) -> bool {
    atom matches AtomView::Name(name) ==> !is_array_in(body, name)
}

/// Whether an operand is typed, that is, takes each name for what it is: a
/// plain name is no array of the body, and an element is an element of an
/// array of the body at an index that is no array.
pub open spec fn place_typed(body: Seq<StmtView>, place: PlaceView) -> bool {
    match place {
        PlaceView::Plain(atom) => atom_typed(body, atom),
        PlaceView::Element(array, index) => is_array_in(body, array) && atom_typed(body, index),
    }
}

/// Whether a statement is typed: each of its operands is.
pub open spec fn stmt_typed(body: Seq<StmtView>, stmt: StmtView) -> bool {
    match stmt {
        StmtView::Int(name) => !is_array_in(body, name),
        StmtView::Array(_, _) => true,
        StmtView::Mov(dst, src) => place_typed(body, dst) && place_typed(body, src),
        StmtView::Binary(_, dst, a, b) => place_typed(body, dst) && place_typed(body, a)
            && place_typed(body, b),
        StmtView::Label(_) => true,
        StmtView::Jmp(_) => true,
        StmtView::BranchIf(cond, _) => place_typed(body, cond),
        StmtView::BranchIfn(cond, _) => place_typed(body, cond),
        StmtView::Call(dst, _, args) => place_typed(body, dst) && forall|j: int|
            0 <= j < args.len() ==> place_typed(body, #[trigger] args[j]),
        StmtView::Ret(value) => place_typed(body, value),
        StmtView::Out(value) => place_typed(body, value),
        StmtView::Input(value) => place_typed(body, value),
    }
}

/// Whether a function is typed: its parameters are no arrays, and each of
/// its statements is typed.
pub open spec fn function_typed(function: FunctionView) -> bool {
    &&& forall|k: int|
        0 <= k < function.body.len() ==> stmt_typed(function.body, #[trigger] function.body[k])
    &&& forall|i: int|
        0 <= i < function.params.len() ==> !is_array_in(
            function.body,
            #[trigger] function.params[i],
        )
}

/// Whether a program is typed: each of its functions is.
pub open spec fn typed(program: ProgramView) -> bool {
    forall|f: int| 0 <= f < program.functions.len() ==> function_typed(#[trigger] program.functions[f])
}

/// Whether the variables of a frame are typed: they hold what the body
/// says they are, an array where the body declares one, an integer
/// elsewhere.
pub open spec fn env_typed(body: Seq<StmtView>, env: Env) -> bool {
    forall|name: Seq<char>|
        env.dom().contains(name) ==> (#[trigger] env[name] is Array <==> is_array_in(body, name))
}

/// Whether a machine is typed: its frames stand within the functions of
/// the program, their variables are typed, and each operand that takes a
/// result is typed in the function of the caller.
pub open spec fn machine_typed(program: ProgramView, machine: MachineView) -> bool {
    &&& within(program, machine)
    &&& forall|i: int|
        0 <= i < machine.frames.len() ==> env_typed(
            program.functions[(#[trigger] machine.frames[i]).function].body,
            machine.frames[i].env,
        )
    &&& forall|i: int|
        0 < i < machine.frames.len() ==> ((#[trigger] machine.frames[i]).dst matches Some(dst)
            ==> place_typed(program.functions[machine.frames[i - 1].function].body, dst))
}

/// Whether a fault is none of the two that say that integers and arrays
/// were mixed.
pub open spec fn unmixed(fault: Fault) -> bool {
    fault != Fault::NotAScalar && fault != Fault::NotAnArray
}

/// Reading a typed operand from typed variables does not fail for a
/// mix.
pub proof fn lemma_read_typed(body: Seq<StmtView>, env: Env, place: PlaceView)
    requires
        env_typed(body, env),
        place_typed(body, place),
    ensures
        read(env, place) matches Err(fault) ==> unmixed(fault),
{
}

/// Reading typed operands from typed variables does not fail for a mix.
pub proof fn lemma_read_all_typed(body: Seq<StmtView>, env: Env, places: Seq<PlaceView>, n: int)
    requires
        env_typed(body, env),
        n <= places.len(),
        forall|j: int| 0 <= j < places.len() ==> place_typed(body, #[trigger] places[j]),
    ensures
        read_all(env, places, n) matches Err(fault) ==> unmixed(fault),
    decreases n,
{
    if n > 0 {
        lemma_read_all_typed(body, env, places, n - 1);
        lemma_read_typed(body, env, places[n - 1]);
    }
}

/// Writing to a typed operand of typed variables does not fail for a
/// mix, and leaves the variables typed.
pub proof fn lemma_write_typed(body: Seq<StmtView>, env: Env, place: PlaceView, value: i32)
    requires
        env_typed(body, env),
        place_typed(body, place),
    ensures
        match crate::machine::write(env, place, value) {
            Ok(after) => env_typed(body, after),
            Err(fault) => unmixed(fault),
        },
{
    if let Ok(after) = crate::machine::write(env, place, value) {
        assert forall|name: Seq<char>| after.dom().contains(name) implies (
        #[trigger] after[name] is Array <==> is_array_in(body, name)) by {
            if env.dom().contains(name) {
                assert(env[name] is Array <==> is_array_in(body, name));
            }
        }
    }
}

/// Declaring what the body says a name is leaves the variables typed.
pub proof fn lemma_declare_typed(body: Seq<StmtView>, env: Env, name: Seq<char>, value: ValueView)
    requires
        env_typed(body, env),
        value is Array <==> is_array_in(body, name),
    ensures
        env_typed(body, env.insert(name, value)),
{
    let after = env.insert(name, value);
    assert forall|other: Seq<char>| after.dom().contains(other) implies (
    #[trigger] after[other] is Array <==> is_array_in(body, other)) by {
        if other != name {
            assert(env[other] is Array <==> is_array_in(body, other));
        }
    }
}

/// Parameters that are no arrays are bound to typed variables.
pub proof fn lemma_bind_typed(
    body: Seq<StmtView>,
    params: Seq<Seq<char>>,
    values: Seq<i32>,
    n: int,
)
    requires
        n <= params.len(),
        forall|i: int| 0 <= i < params.len() ==> !is_array_in(body, #[trigger] params[i]),
    ensures
        env_typed(body, bind(params, values, n)),
    decreases n,
{
    if n > 0 {
        lemma_bind_typed(body, params, values, n - 1);
        lemma_declare_typed(
            body,
            bind(params, values, n - 1),
            params[n - 1],
            ValueView::Int(values[n - 1]),
        );
    }
}

/// A statement other than a call and a return that is typed leaves
/// typed variables typed, and does not fail for a mix.
pub proof fn lemma_local_typed(function: FunctionView, frame: FrameView, stmt: StmtView)
    requires
        env_typed(function.body, frame.env),
        stmt_typed(function.body, stmt),
        0 <= frame.pc < function.body.len(),
        stmt == function.body[frame.pc],
    ensures
        env_typed(function.body, local_step(function, frame, stmt).0.env),
        local_step(function, frame, stmt).0.function == frame.function,
        local_step(function, frame, stmt).0.dst == frame.dst,
        local_step(function, frame, stmt).1 matches Signal::Fault(fault) ==> unmixed(fault),
{
    reveal(local_step);
    let body = function.body;
    let env = frame.env;
    match stmt {
        StmtView::Int(name) => {
            lemma_declare_typed(body, env, name, ValueView::Int(0));
        },
        StmtView::Array(name, size) => {
            assert(declares(body[frame.pc], name));
            lemma_declare_typed(body, env, name, ValueView::Array(Seq::new(size, |i: int| 0i32)));
        },
        StmtView::Mov(dst, src) => {
            lemma_read_typed(body, env, src);
            if let Ok(value) = read(env, src) {
                lemma_write_typed(body, env, dst, value);
            }
        },
        StmtView::Binary(op, dst, a, b) => {
            lemma_read_typed(body, env, a);
            lemma_read_typed(body, env, b);
            if let Ok(x) = read(env, a) {
                if let Ok(y) = read(env, b) {
                    if let Some(value) = apply(op, x, y) {
                        lemma_write_typed(body, env, dst, value);
                    }
                }
            }
        },
        StmtView::BranchIf(cond, target) => {
            lemma_read_typed(body, env, cond);
        },
        StmtView::BranchIfn(cond, target) => {
            lemma_read_typed(body, env, cond);
        },
        StmtView::Out(value) => {
            lemma_read_typed(body, env, value);
        },
        _ => {},
    }
}

/// A step of a typed program leaves a typed machine typed, and does
/// not fail for a mix of integers and arrays.
pub proof fn lemma_step_typed(program: ProgramView, machine: MachineView)
    requires
        typed(program),
        machine_typed(program, machine),
    ensures
        machine_typed(program, step(program, machine).0),
        step(program, machine).1 matches Signal::Fault(fault) ==> unmixed(fault),
{
    reveal(call_step);
    reveal(ret_step);
    crate::machine::lemma_step_within(program, machine);
    let after = step(program, machine).0;
    if machine.frames.len() > 0 {
        let last = machine.frames.len() - 1;
        let top = machine.frames.last();
        assert(top == machine.frames[last]);
        let function = program.functions[top.function];
        let body = function.body;
        assert(function_typed(function));
        assert(env_typed(body, top.env));
        if 0 <= top.pc < body.len() {
            assert(stmt_typed(body, body[top.pc]));
            match body[top.pc] {
                StmtView::Call(dst, name, args) => {
                    lemma_read_all_typed(body, top.env, args, args.len() as int);
                    lemma_function_index(program.functions, name, 0);
                    if let Ok(values) = read_all(top.env, args, args.len() as int) {
                        if let Some(at) = function_index(program.functions, name, 0) {
                            let callee = program.functions[at];
                            assert(function_typed(callee));
                            if callee.params.len() == values.len() {
                                lemma_bind_typed(
                                    callee.body,
                                    callee.params,
                                    values,
                                    values.len() as int,
                                );
                            }
                        }
                    }
                },
                StmtView::Ret(value) => {
                    lemma_read_typed(body, top.env, value);
                    if machine.frames.len() > 1 {
                        let caller = machine.frames[last - 1];
                        let home = program.functions[caller.function].body;
                        assert(env_typed(home, caller.env));
                        if let Ok(n) = read(top.env, value) {
                            if let Some(dst) = top.dst {
                                assert(place_typed(home, dst));
                                lemma_write_typed(home, caller.env, dst, n);
                            }
                        }
                    }
                },
                stmt => {
                    lemma_local_typed(function, top, stmt);
                },
            }
        }
        assert forall|i: int| 0 <= i < after.frames.len() implies env_typed(
            program.functions[(#[trigger] after.frames[i]).function].body,
            after.frames[i].env,
        ) by {
            if i < machine.frames.len() {
                assert(env_typed(
                    program.functions[machine.frames[i].function].body,
                    machine.frames[i].env,
                ));
            }
        }
        assert forall|i: int| 0 < i < after.frames.len() implies ((
        #[trigger] after.frames[i]).dst matches Some(dst) ==> place_typed(
            program.functions[after.frames[i - 1].function].body,
            dst,
        )) by {
            if i < machine.frames.len() {
                assert(machine.frames[i].dst matches Some(dst) ==> place_typed(
                    program.functions[machine.frames[i - 1].function].body,
                    dst,
                ));
            }
        }
    }
}

/// Handing an integer to a typed machine leaves it typed, and does not
/// fail for a mix of integers and arrays.
pub proof fn lemma_deliver_typed(program: ProgramView, machine: MachineView, value: i32)
    requires
        typed(program),
        machine_typed(program, machine),
    ensures
        machine_typed(program, deliver(program, machine, value).0),
        deliver(program, machine, value).1 matches Signal::Fault(fault) ==> unmixed(fault),
{
    crate::machine::lemma_deliver_within(program, machine, value);
    let after = deliver(program, machine, value).0;
    if machine.frames.len() > 0 {
        let last = machine.frames.len() - 1;
        let top = machine.frames.last();
        assert(top == machine.frames[last]);
        let function = program.functions[top.function];
        let body = function.body;
        assert(function_typed(function));
        assert(env_typed(body, top.env));
        if 0 <= top.pc < body.len() {
            assert(stmt_typed(body, body[top.pc]));
            if let StmtView::Input(place) = body[top.pc] {
                lemma_write_typed(body, top.env, place, value);
            }
        }
        assert forall|i: int| 0 <= i < after.frames.len() implies env_typed(
            program.functions[(#[trigger] after.frames[i]).function].body,
            after.frames[i].env,
        ) by {
            assert(env_typed(
                program.functions[machine.frames[i].function].body,
                machine.frames[i].env,
            ));
        }
        assert forall|i: int| 0 < i < after.frames.len() implies ((
        #[trigger] after.frames[i]).dst matches Some(dst) ==> place_typed(
            program.functions[after.frames[i - 1].function].body,
            dst,
        )) by {
            assert(machine.frames[i].dst matches Some(dst) ==> place_typed(
                program.functions[machine.frames[i - 1].function].body,
                dst,
            ));
        }
    }
}

/// The machine at the start of a program is typed.
pub proof fn lemma_initial_typed(program: ProgramView)
    ensures
        initial(program) matches Ok(machine) ==> machine_typed(program, machine),
{
    lemma_function_index(program.functions, "main"@, 0);
}

/// The name of a temporary is no name that the scanner finds: it starts
/// with an underscore.
pub proof fn lemma_temp_is_no_name(n: nat)
    ensures
        !is_name(temp_name(n)),
{
    reveal_strlit("_temp");
    assert(temp_name(n)[0] == '_');
}

/// An operand of a body whose variables are no arrays is read back as an
/// atom that is typed.
pub proof fn lemma_operand_typed(
    stmts: Seq<StmtView>,
    operand: Operand,
    scope: Scope,
    lo: Counters,
    hi: Counters,
)
    requires
        operand_ok(operand, scope.symbols, lo, hi),
        all_names(scope.arrays),
        declared_once(scope.symbols, scope.arrays),
        forall|name: Seq<char>| is_array_in(stmts, name) ==> scope.arrays.contains(name),
    ensures
        atom_typed(stmts, lower_operand(operand)),
        place_typed(stmts, lower_plain(operand)),
{
    match operand {
        Operand::Temp(n) => {
            lemma_temp_is_no_name(n);
            if scope.arrays.contains(temp_name(n)) {
                crate::contract::lemma_member_is_name(scope.arrays, temp_name(n));
            }
        },
        _ => {},
    }
}

/// The code of a function whose variables and arrays are declared once
/// stands for a function that takes each name for what it is.
pub proof fn lemma_unit_typed(
    name: Seq<char>,
    params: Seq<Seq<char>>,
    body: Seq<Instr>,
    scope: Scope,
    lo: Counters,
    hi: Counters,
)
    requires
        closed(body, scope, lo, hi, Seq::empty()),
        scope.symbols == params + declared_vars(body),
        scope.arrays == declared_arrays(body),
        declared_once(scope.symbols, scope.arrays),
        all_names(scope.arrays),
    ensures
        function_typed(lower_unit(name, params, body)),
{
    let function = lower_unit(name, params, body);
    let stmts = function.body;
    assert forall|array: Seq<char>| is_array_in(stmts, array) implies scope.arrays.contains(
        array,
    ) by {
        let k = choose|k: int| 0 <= k < stmts.len() && declares(#[trigger] stmts[k], array);
        assert(instr_ok(body[k], scope, lo, hi, Seq::empty()));
        assert(stmts[k] == lower_line(body[k])->Stmt_0);
    }
    assert forall|array: Seq<char>| scope.arrays.contains(array) implies is_array_in(
        stmts,
        array,
    ) by {
        lemma_declared_contains(body, array);
        let k = choose|k: int| 0 <= k < body.len() && is_array_of(#[trigger] body[k], array);
        assert(stmts[k] == lower_line(body[k])->Stmt_0);
        assert(declares(stmts[k], array));
    }
    assert forall|i: int| 0 <= i < params.len() implies !is_array_in(
        stmts,
        #[trigger] params[i],
    ) by {
        assert(scope.symbols[i] == params[i]);
    }
    assert forall|k: int| 0 <= k < stmts.len() implies stmt_typed(stmts, #[trigger] stmts[k]) by {
        assert(instr_ok(body[k], scope, lo, hi, Seq::empty()));
        assert(stmts[k] == lower_line(body[k])->Stmt_0);
        match body[k] {
            Instr::Int { var } => {
                match var {
                    Operand::Temp(n) => {
                        lemma_temp_is_no_name(n);
                        if scope.arrays.contains(temp_name(n)) {
                            crate::contract::lemma_member_is_name(scope.arrays, temp_name(n));
                        }
                    },
                    _ => {},
                }
            },
            Instr::Mov { dst, src } => {
                lemma_operand_typed(stmts, dst, scope, lo, hi);
                lemma_operand_typed(stmts, src, scope, lo, hi);
            },
            Instr::Store { array, index, src } => {
                lemma_operand_typed(stmts, index, scope, lo, hi);
                lemma_operand_typed(stmts, src, scope, lo, hi);
            },
            Instr::Load { dst, array, index } => {
                lemma_operand_typed(stmts, index, scope, lo, hi);
                lemma_operand_typed(stmts, dst, scope, lo, hi);
            },
            Instr::Binary { op, dst, left, right } => {
                lemma_operand_typed(stmts, dst, scope, lo, hi);
                lemma_operand_typed(stmts, left, scope, lo, hi);
                lemma_operand_typed(stmts, right, scope, lo, hi);
            },
            Instr::BranchIf { cond, target } => {
                lemma_operand_typed(stmts, cond, scope, lo, hi);
            },
            Instr::BranchIfn { cond, target } => {
                lemma_operand_typed(stmts, cond, scope, lo, hi);
            },
            Instr::Call { dst, func, args } => {
                lemma_operand_typed(stmts, dst, scope, lo, hi);
                let places = crate::contract::lower_args(args);
                assert forall|j: int| 0 <= j < places.len() implies place_typed(
                    stmts,
                    #[trigger] places[j],
                ) by {
                    lemma_operand_typed(stmts, args[j], scope, lo, hi);
                }
            },
            Instr::Ret { value } => {
                lemma_operand_typed(stmts, value, scope, lo, hi);
            },
            Instr::Out { value } => {
                lemma_operand_typed(stmts, value, scope, lo, hi);
            },
            Instr::Input { value } => {
                lemma_operand_typed(stmts, value, scope, lo, hi);
            },
            _ => {},
        }
    }
}

} // verus!
