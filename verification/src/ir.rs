//! The instructions of the intermediate representation, and their text.

use crate::text::{decimal, decimal_nat};
use vstd::prelude::*;

verus! {

/// What an instruction reads or writes: an integer literal, a variable of
/// the source program, or a temporary that the parser made.
pub ghost enum Operand {
    Lit(int),
    Var(Seq<char>),
    Temp(nat),
}

/// The operations with two operands and a result.
pub ghost enum BinaryOp {
    Add,
    Sub,
    Mult,
    Div,
    Mod,
    Eq,
    Neq,
    Lt,
    Le,
    Gt,
    Ge,
}

/// One line of the intermediate representation. A label's name and a jump's
/// target are written as they stand in the text, with the leading colon.
pub ghost enum Instr {
    Func { name: Seq<char>, params: Seq<Seq<char>> },
    EndFunc,
    Int { var: Operand },
    Array { name: Seq<char>, size: int },
    Mov { dst: Operand, src: Operand },
    Store { array: Seq<char>, index: Operand, src: Operand },
    Load { dst: Operand, array: Seq<char>, index: Operand },
    Binary { op: BinaryOp, dst: Operand, left: Operand, right: Operand },
    Label { name: Seq<char> },
    Jmp { target: Seq<char> },
    BranchIf { cond: Operand, target: Seq<char> },
    BranchIfn { cond: Operand, target: Seq<char> },
    Call { dst: Operand, func: Seq<char>, args: Seq<Operand> },
    Ret { value: Operand },
    Out { value: Operand },
    Input { value: Operand },
}

/// The name of the `n`-th temporary.
pub open spec fn temp_name(n: nat) -> Seq<char> {
    "_temp"@ + decimal_nat(n)
}

/// The labels of the `n`-th loop: where it begins and where it ends.
pub open spec fn loop_begin(n: nat) -> Seq<char> {
    ":beginloop"@ + decimal_nat(n)
}

/// The label at the end of the `n`-th loop.
pub open spec fn loop_end(n: nat) -> Seq<char> {
    ":endloop"@ + decimal_nat(n)
}

/// The labels of the `n`-th conditional: its first branch, its second
/// branch, and what follows it.
pub open spec fn branch_then(n: nat) -> Seq<char> {
    ":iftrue"@ + decimal_nat(n)
}

/// The label of the second branch of the `n`-th conditional.
pub open spec fn branch_else(n: nat) -> Seq<char> {
    ":else"@ + decimal_nat(n)
}

/// The label behind the `n`-th conditional.
pub open spec fn branch_end(n: nat) -> Seq<char> {
    ":endif"@ + decimal_nat(n)
}

/// The text of an operand: a number in decimal, or a name.
pub open spec fn render_operand(operand: Operand) -> Seq<char> {
    match operand {
        Operand::Lit(n) => decimal(n),
        Operand::Var(name) => name,
        Operand::Temp(n) => temp_name(n),
    }
}

/// The opcode of an operation.
pub open spec fn opcode(op: BinaryOp) -> Seq<char> {
    match op {
        BinaryOp::Add => "%add"@,
        BinaryOp::Sub => "%sub"@,
        BinaryOp::Mult => "%mult"@,
        BinaryOp::Div => "%div"@,
        BinaryOp::Mod => "%mod"@,
        BinaryOp::Eq => "%eq"@,
        BinaryOp::Neq => "%neq"@,
        BinaryOp::Lt => "%lt"@,
        BinaryOp::Le => "%le"@,
        BinaryOp::Gt => "%gt"@,
        BinaryOp::Ge => "%ge"@,
    }
}

/// A line with one operand: `%out x`.
pub open spec fn line1(opcode: Seq<char>, a: Seq<char>) -> Seq<char> {
    opcode + " "@ + a + "\n"@
}

/// A line with two operands: `%mov x, y`.
pub open spec fn line2(opcode: Seq<char>, a: Seq<char>, b: Seq<char>) -> Seq<char> {
    opcode + " "@ + a + ", "@ + b + "\n"@
}

/// A line with three operands: `%add t, x, y`.
pub open spec fn line3(opcode: Seq<char>, a: Seq<char>, b: Seq<char>, c: Seq<char>) -> Seq<char> {
    opcode + " "@ + a + ", "@ + b + ", "@ + c + "\n"@
}

/// An element of an array as an operand: `[a + i]`.
pub open spec fn indexed(array: Seq<char>, index: Seq<char>) -> Seq<char> {
    "["@ + array + " + "@ + index + "]"@
}

/// The items of a list, with `, ` between each two.
pub open spec fn comma_list(items: Seq<Seq<char>>) -> Seq<char>
    decreases items.len(),
{
    if items.len() == 0 {
        Seq::empty()
    } else if items.len() == 1 {
        items[0]
    } else {
        comma_list(items.drop_last()) + ", "@ + items.last()
    }
}

/// A parameter as a function's header declares it: `%int p`.
pub open spec fn declared(params: Seq<Seq<char>>) -> Seq<Seq<char>> {
    Seq::new(params.len(), |i: int| "%int "@ + params[i])
}

/// The texts of operands, in order.
pub open spec fn render_operands(operands: Seq<Operand>) -> Seq<Seq<char>> {
    Seq::new(operands.len(), |i: int| render_operand(operands[i]))
}

/// The header of a function: `%func f (%int p, %int q)`.
pub open spec fn func_line(name: Seq<char>, params: Seq<Seq<char>>) -> Seq<char> {
    "%func "@ + name + " ("@ + comma_list(declared(params)) + ")\n"@
}

/// A call: `%call t, f(x, y)`.
pub open spec fn call_line(dst: Seq<char>, func: Seq<char>, args: Seq<Seq<char>>) -> Seq<char> {
    "%call "@ + dst + ", "@ + func + "("@ + comma_list(args) + ")\n"@
}

/// The text of one instruction, with the line feed that ends it.
pub open spec fn render_instr(instr: Instr) -> Seq<char> {
    match instr {
        Instr::Func { name, params } => func_line(name, params),
        Instr::EndFunc => "%endfunc\n\n"@,
        Instr::Int { var } => line1("%int"@, render_operand(var)),
        Instr::Array { name, size } => line2("%int[]"@, name, decimal(size)),
        Instr::Mov { dst, src } => line2("%mov"@, render_operand(dst), render_operand(src)),
        Instr::Store { array, index, src } => line2(
            "%mov"@,
            indexed(array, render_operand(index)),
            render_operand(src),
        ),
        Instr::Load { dst, array, index } => line2(
            "%mov"@,
            render_operand(dst),
            indexed(array, render_operand(index)),
        ),
        Instr::Binary { op, dst, left, right } => line3(
            opcode(op),
            render_operand(dst),
            render_operand(left),
            render_operand(right),
        ),
        Instr::Label { name } => name + "\n"@,
        Instr::Jmp { target } => line1("%jmp"@, target),
        Instr::BranchIf { cond, target } => line2("%branch_if"@, render_operand(cond), target),
        Instr::BranchIfn { cond, target } => line2("%branch_ifn"@, render_operand(cond), target),
        Instr::Call { dst, func, args } => call_line(
            render_operand(dst),
            func,
            render_operands(args),
        ),
        Instr::Ret { value } => line1("%ret"@, render_operand(value)),
        Instr::Out { value } => line1("%out"@, render_operand(value)),
        Instr::Input { value } => line1("%input"@, render_operand(value)),
    }
}

/// The text of a sequence of instructions: their lines, one after another.
pub open spec fn render(code: Seq<Instr>) -> Seq<char>
    decreases code.len(),
{
    if code.len() == 0 {
        Seq::empty()
    } else {
        render(code.drop_last()) + render_instr(code.last())
    }
}

/// Code without instructions has no text.
pub proof fn lemma_render_empty()
    ensures
        render(Seq::<Instr>::empty()) == Seq::<char>::empty(),
{
}

/// The text of code with one more instruction is the text of the code and
/// then the line of the instruction.
pub broadcast proof fn lemma_render_push(code: Seq<Instr>, instr: Instr)
    ensures
        #[trigger] render(code.push(instr)) == render(code) + render_instr(instr),
{
    assert(code.push(instr).drop_last() =~= code);
}

/// The text of one instruction is its line.
pub broadcast proof fn lemma_render_one(instr: Instr)
    ensures
        #[trigger] render(seq![instr]) == render_instr(instr),
{
    assert(seq![instr].drop_last() =~= Seq::<Instr>::empty());
    assert(seq![instr].last() == instr);
    assert(render(Seq::<Instr>::empty()) == Seq::<char>::empty());
    assert(Seq::<char>::empty() + render_instr(instr) =~= render_instr(instr));
}

/// The text of two pieces of code, one after the other, is the text of the
/// first followed by the text of the second.
pub broadcast proof fn lemma_render_concat(a: Seq<Instr>, b: Seq<Instr>)
    ensures
        #[trigger] render(a + b) == render(a) + render(b),
    decreases b.len(),
{
    if b.len() == 0 {
        assert(a + b =~= a);
        assert(render(a) + Seq::<char>::empty() =~= render(a));
    } else {
        lemma_render_concat(a, b.drop_last());
        assert((a + b).drop_last() =~= a + b.drop_last());
        assert((a + b).last() == b.last());
        assert(render(a) + render(b.drop_last()) + render_instr(b.last()) =~= render(a) + (render(
            b.drop_last(),
        ) + render_instr(b.last())));
    }
}

pub broadcast group group_render {
    lemma_render_push,
    lemma_render_one,
    lemma_render_concat,
}

} // verus!
