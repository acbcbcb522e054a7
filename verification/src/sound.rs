//! The properties that the code of a statement has, and how they carry
//! over from pieces of code to the code made of them.

use crate::grammar::{Counters, Scope};
use crate::ir::{
    branch_else, branch_end, branch_then, loop_begin, loop_end, temp_name, Instr, Operand,
};
use crate::text::{decimal_nat, lemma_decimal_injective};
use vstd::prelude::*;

verus! {

/// The five kinds of label that the parser makes.
pub ghost enum LabelKind {
    LoopBegin,
    LoopEnd,
    Then,
    Else,
    End,
}

/// The label of a kind and a number.
pub open spec fn label_text(kind: LabelKind, n: nat) -> Seq<char> {
    match kind {
        LabelKind::LoopBegin => loop_begin(n),
        LabelKind::LoopEnd => loop_end(n),
        LabelKind::Then => branch_then(n),
        LabelKind::Else => branch_else(n),
        LabelKind::End => branch_end(n),
    }
}

/// The counter that numbers the labels of a kind.
pub open spec fn counter_of(kind: LabelKind, counters: Counters) -> nat {
    match kind {
        LabelKind::LoopBegin => counters.loops,
        LabelKind::LoopEnd => counters.loops,
        _ => counters.branches,
    }
}

proof fn lemma_cancel_prefix(prefix: Seq<char>, a: Seq<char>, b: Seq<char>)
    requires
        prefix + a == prefix + b,
    ensures
        a == b,
{
    assert((prefix + a).skip(prefix.len() as int) =~= a);
    assert((prefix + b).skip(prefix.len() as int) =~= b);
}

/// Different temporaries have different names.
pub proof fn lemma_temp_names_differ(a: nat, b: nat)
    requires
        temp_name(a) == temp_name(b),
    ensures
        a == b,
{
    lemma_cancel_prefix("_temp"@, decimal_nat(a), decimal_nat(b));
    lemma_decimal_injective(a, b);
}

/// Labels of different kinds or numbers are different texts.
pub proof fn lemma_label_names_differ(kind1: LabelKind, n1: nat, kind2: LabelKind, n2: nat)
    requires
        label_text(kind1, n1) == label_text(kind2, n2),
    ensures
        kind1 == kind2,
        n1 == n2,
{
    reveal_strlit(":beginloop");
    reveal_strlit(":endloop");
    reveal_strlit(":iftrue");
    reveal_strlit(":else");
    reveal_strlit(":endif");
    let a = label_text(kind1, n1);
    let d1 = decimal_nat(n1);
    let d2 = decimal_nat(n2);
    assert((":beginloop"@ + d1)[1] == 'b' && (":beginloop"@ + d2)[1] == 'b');
    assert((":iftrue"@ + d1)[1] == 'i' && (":iftrue"@ + d2)[1] == 'i');
    assert((":endloop"@ + d1)[1] == 'e' && (":endloop"@ + d2)[1] == 'e');
    assert((":else"@ + d1)[1] == 'e' && (":else"@ + d2)[1] == 'e');
    assert((":endif"@ + d1)[1] == 'e' && (":endif"@ + d2)[1] == 'e');
    assert((":endloop"@ + d1)[2] == 'n' && (":endloop"@ + d2)[2] == 'n');
    assert((":else"@ + d1)[2] == 'l' && (":else"@ + d2)[2] == 'l');
    assert((":endif"@ + d1)[2] == 'n' && (":endif"@ + d2)[2] == 'n');
    assert((":endloop"@ + d1)[4] == 'l' && (":endloop"@ + d2)[4] == 'l');
    assert((":endif"@ + d1)[4] == 'i' && (":endif"@ + d2)[4] == 'i');
    assert(a[1] == label_text(kind2, n2)[1]);
    assert(a[2] == label_text(kind2, n2)[2]);
    assert(a[4] == label_text(kind2, n2)[4]);
    assert(kind1 == kind2);
    match kind1 {
        LabelKind::LoopBegin => lemma_cancel_prefix(":beginloop"@, d1, d2),
        LabelKind::LoopEnd => lemma_cancel_prefix(":endloop"@, d1, d2),
        LabelKind::Then => lemma_cancel_prefix(":iftrue"@, d1, d2),
        LabelKind::Else => lemma_cancel_prefix(":else"@, d1, d2),
        LabelKind::End => lemma_cancel_prefix(":endif"@, d1, d2),
    }
    lemma_decimal_injective(n1, n2);
}

/// Whether each counter of `a` is at most that of `b`.
pub open spec fn le(a: Counters, b: Counters) -> bool {
    a.temps <= b.temps && a.loops <= b.loops && a.branches <= b.branches
}

/// Whether a text is a label that the parser makes while its counters go
/// from `lo` to `hi`.
pub open spec fn fresh_label(name: Seq<char>, lo: Counters, hi: Counters) -> bool {
    exists|kind: LabelKind, n: nat| #[trigger]
        label_text(kind, n) == name && counter_of(kind, lo) < n <= counter_of(kind, hi)
}

/// A label made between `lo` and `hi` is made either before `mid` or after
/// it, and not both.
pub proof fn lemma_fresh_split(name: Seq<char>, lo: Counters, mid: Counters, hi: Counters)
    requires
        le(lo, mid),
        le(mid, hi),
    ensures
        fresh_label(name, lo, hi) <==> fresh_label(name, lo, mid) || fresh_label(name, mid, hi),
        !(fresh_label(name, lo, mid) && fresh_label(name, mid, hi)),
{
    if fresh_label(name, lo, hi) {
        let (kind, n) = choose|kind: LabelKind, n: nat| #[trigger]
            label_text(kind, n) == name && counter_of(kind, lo) < n <= counter_of(kind, hi);
        if n <= counter_of(kind, mid) {
            assert(label_text(kind, n) == name);
            assert(fresh_label(name, lo, mid));
        } else {
            assert(label_text(kind, n) == name);
            assert(fresh_label(name, mid, hi));
        }
    }
    if fresh_label(name, lo, mid) {
        let (kind, n) = choose|kind: LabelKind, n: nat| #[trigger]
            label_text(kind, n) == name && counter_of(kind, lo) < n <= counter_of(kind, mid);
        assert(label_text(kind, n) == name);
        assert(fresh_label(name, lo, hi));
        if fresh_label(name, mid, hi) {
            let (kind2, n2) = choose|kind: LabelKind, n: nat| #[trigger]
                label_text(kind, n) == name && counter_of(kind, mid) < n <= counter_of(kind, hi);
            lemma_label_names_differ(kind, n, kind2, n2);
        }
    }
    if fresh_label(name, mid, hi) {
        let (kind, n) = choose|kind: LabelKind, n: nat| #[trigger]
            label_text(kind, n) == name && counter_of(kind, mid) < n <= counter_of(kind, hi);
        assert(label_text(kind, n) == name);
        assert(fresh_label(name, lo, hi));
    }
}

/// What is made while neither label counter moves is no label.
pub proof fn lemma_fresh_none(name: Seq<char>, lo: Counters, hi: Counters)
    requires
        lo.loops == hi.loops,
        lo.branches == hi.branches,
    ensures
        !fresh_label(name, lo, hi),
{
}

/// The labels that one step of the loop counter makes: the two of the loop.
pub proof fn lemma_fresh_loop(name: Seq<char>, lo: Counters, hi: Counters)
    requires
        hi.loops == lo.loops + 1,
        hi.branches == lo.branches,
    ensures
        fresh_label(name, lo, hi) <==> name == loop_begin(hi.loops) || name == loop_end(hi.loops),
        loop_begin(hi.loops) != loop_end(hi.loops),
{
    let n = hi.loops;
    assert(label_text(LabelKind::LoopBegin, n) == loop_begin(n));
    assert(label_text(LabelKind::LoopEnd, n) == loop_end(n));
    if loop_begin(n) == loop_end(n) {
        lemma_label_names_differ(LabelKind::LoopBegin, n, LabelKind::LoopEnd, n);
    }
}

/// The labels that one step of the conditional counter makes: the three of
/// the conditional.
pub proof fn lemma_fresh_branch(name: Seq<char>, lo: Counters, hi: Counters)
    requires
        hi.branches == lo.branches + 1,
        hi.loops == lo.loops,
    ensures
        fresh_label(name, lo, hi) <==> name == branch_then(hi.branches) || name == branch_else(
            hi.branches,
        ) || name == branch_end(hi.branches),
        branch_then(hi.branches) != branch_else(hi.branches),
        branch_then(hi.branches) != branch_end(hi.branches),
        branch_else(hi.branches) != branch_end(hi.branches),
{
    let n = hi.branches;
    assert(label_text(LabelKind::Then, n) == branch_then(n));
    assert(label_text(LabelKind::Else, n) == branch_else(n));
    assert(label_text(LabelKind::End, n) == branch_end(n));
    if branch_then(n) == branch_else(n) {
        lemma_label_names_differ(LabelKind::Then, n, LabelKind::Else, n);
    }
    if branch_then(n) == branch_end(n) {
        lemma_label_names_differ(LabelKind::Then, n, LabelKind::End, n);
    }
    if branch_else(n) == branch_end(n) {
        lemma_label_names_differ(LabelKind::Else, n, LabelKind::End, n);
    }
}

/// How often an instruction occurs in a piece of code.
pub open spec fn count(code: Seq<Instr>, wanted: Instr) -> nat
    decreases code.len(),
{
    if code.len() == 0 {
        0
    } else {
        count(code.drop_last(), wanted) + if code.last() == wanted {
            1nat
        } else {
            0nat
        }
    }
}

/// One instruction occurs once in itself, and no other does.
pub proof fn lemma_count_one(instr: Instr, wanted: Instr)
    ensures
        count(seq![instr], wanted) == if instr == wanted {
            1nat
        } else {
            0nat
        },
{
    assert(seq![instr].drop_last() =~= Seq::<Instr>::empty());
    assert(count(Seq::<Instr>::empty(), wanted) == 0);
}

/// An instruction occurs in two pieces of code as often as in the first
/// and in the second together.
pub proof fn lemma_count_concat(a: Seq<Instr>, b: Seq<Instr>, wanted: Instr)
    ensures
        count(a + b, wanted) == count(a, wanted) + count(b, wanted),
    decreases b.len(),
{
    if b.len() == 0 {
        assert(a + b =~= a);
    } else {
        lemma_count_concat(a, b.drop_last(), wanted);
        assert((a + b).drop_last() =~= a + b.drop_last());
    }
}

/// What occurs in a piece of code is one of its instructions.
pub proof fn lemma_count_contains(code: Seq<Instr>, wanted: Instr)
    ensures
        count(code, wanted) > 0 <==> code.contains(wanted),
    decreases code.len(),
{
    if code.len() > 0 {
        lemma_count_contains(code.drop_last(), wanted);
        if code.drop_last().contains(wanted) {
            let k = choose|k: int| 0 <= k < code.drop_last().len() && code.drop_last()[k] == wanted;
            assert(code[k] == wanted);
        }
        if code.contains(wanted) {
            let k = choose|k: int| 0 <= k < code.len() && code[k] == wanted;
            if k < code.len() - 1 {
                assert(code.drop_last()[k] == wanted);
            }
        }
        if code.last() == wanted {
            assert(code[code.len() - 1] == wanted);
        }
    }
}

/// The variables that a piece of code declares, in order.
pub open spec fn declared_vars(code: Seq<Instr>) -> Seq<Seq<char>>
    decreases code.len(),
{
    if code.len() == 0 {
        Seq::empty()
    } else {
        let before = declared_vars(code.drop_last());
        match code.last() {
            Instr::Int { var: Operand::Var(name) } => before.push(name),
            _ => before,
        }
    }
}

/// The arrays that a piece of code declares, in order.
pub open spec fn declared_arrays(code: Seq<Instr>) -> Seq<Seq<char>>
    decreases code.len(),
{
    if code.len() == 0 {
        Seq::empty()
    } else {
        let before = declared_arrays(code.drop_last());
        match code.last() {
            Instr::Array { name, size } => before.push(name),
            _ => before,
        }
    }
}

/// What one instruction declares.
pub proof fn lemma_declared_one(instr: Instr)
    ensures
        declared_vars(seq![instr]) == match instr {
            Instr::Int { var: Operand::Var(name) } => seq![name],
            _ => Seq::empty(),
        },
        declared_arrays(seq![instr]) == match instr {
            Instr::Array { name, size } => seq![name],
            _ => Seq::empty(),
        },
{
    assert(seq![instr].drop_last() =~= Seq::<Instr>::empty());
    assert(declared_vars(Seq::<Instr>::empty()) =~= Seq::empty());
    assert(declared_arrays(Seq::<Instr>::empty()) =~= Seq::empty());
    assert(declared_vars(seq![instr]) =~= match instr {
        Instr::Int { var: Operand::Var(name) } => seq![name],
        _ => Seq::empty(),
    });
    assert(declared_arrays(seq![instr]) =~= match instr {
        Instr::Array { name, size } => seq![name],
        _ => Seq::empty(),
    });
}

/// Two pieces of code declare what the first declares and then what the
/// second does.
pub proof fn lemma_declared_concat(a: Seq<Instr>, b: Seq<Instr>)
    ensures
        declared_vars(a + b) == declared_vars(a) + declared_vars(b),
        declared_arrays(a + b) == declared_arrays(a) + declared_arrays(b),
    decreases b.len(),
{
    if b.len() == 0 {
        assert(a + b =~= a);
        assert(declared_vars(a) + declared_vars(b) =~= declared_vars(a));
        assert(declared_arrays(a) + declared_arrays(b) =~= declared_arrays(a));
    } else {
        lemma_declared_concat(a, b.drop_last());
        assert((a + b).drop_last() =~= a + b.drop_last());
        assert(declared_vars(a + b) =~= declared_vars(a) + declared_vars(b));
        assert(declared_arrays(a + b) =~= declared_arrays(a) + declared_arrays(b));
    }
}

/// Whether an instruction declares the array of a name.
pub open spec fn is_array_of(instr: Instr, array: Seq<char>) -> bool {
    instr matches Instr::Array { name, size } && name == array
}

/// Whether a piece of code declares the array of a name.
pub open spec fn declares_array(code: Seq<Instr>, array: Seq<char>) -> bool {
    exists|k: int| 0 <= k < code.len() && is_array_of(#[trigger] code[k], array)
}

/// A declared variable has its declaration in the code, and so has a
/// declared array.
pub proof fn lemma_declared_contains(code: Seq<Instr>, name: Seq<char>)
    ensures
        declared_vars(code).contains(name) ==> code.contains(
            Instr::Int { var: Operand::Var(name) },
        ),
        declared_arrays(code).contains(name) ==> declares_array(code, name),
    decreases code.len(),
{
    if code.len() > 0 {
        let rest = code.drop_last();
        lemma_declared_contains(rest, name);
        if declared_vars(code).contains(name) {
            let wanted = Instr::Int { var: Operand::Var(name) };
            if declared_vars(rest).contains(name) {
                let k = choose|k: int| 0 <= k < rest.len() && rest[k] == wanted;
                assert(code[k] == wanted);
            } else {
                let j = choose|j: int|
                    0 <= j < declared_vars(code).len() && declared_vars(code)[j] == name;
                if j < declared_vars(rest).len() {
                    assert(declared_vars(rest)[j] == name);
                }
                assert(code[code.len() - 1] == wanted);
            }
        }
        if declared_arrays(code).contains(name) {
            if declared_arrays(rest).contains(name) {
                let k = choose|k: int| 0 <= k < rest.len() && is_array_of(#[trigger] rest[k], name);
                assert(is_array_of(code[k], name));
            } else {
                let j = choose|j: int|
                    0 <= j < declared_arrays(code).len() && declared_arrays(code)[j] == name;
                if j < declared_arrays(rest).len() {
                    assert(declared_arrays(rest)[j] == name);
                }
                assert(is_array_of(code[code.len() - 1], name));
            }
        }
    }
}

/// Whether a piece of code declares each temporary and defines each label
/// made between `lo` and `hi` exactly once, and no other.
pub open spec fn counted(code: Seq<Instr>, lo: Counters, hi: Counters) -> bool {
    &&& forall|n: nat| #[trigger]
        count(code, Instr::Int { var: Operand::Temp(n) }) == if lo.temps < n <= hi.temps {
            1nat
        } else {
            0nat
        }
    &&& forall|name: Seq<char>| #[trigger]
        count(code, Instr::Label { name }) == if fresh_label(name, lo, hi) {
            1nat
        } else {
            0nat
        }
}

/// Code without instructions is counted from any counters to the same.
pub proof fn lemma_counted_empty(at: Counters)
    ensures
        counted(Seq::empty(), at, at),
{
    assert forall|name: Seq<char>| !fresh_label(name, at, at) by {
        lemma_fresh_none(name, at, at);
    }
}

/// An instruction that declares no temporary and defines no label changes
/// no count.
pub proof fn lemma_counted_plain(instr: Instr, at: Counters)
    requires
        !(instr is Label),
        !(instr matches Instr::Int { var: Operand::Temp(_) }),
    ensures
        counted(seq![instr], at, at),
{
    assert forall|n: nat| #[trigger]
        count(seq![instr], Instr::Int { var: Operand::Temp(n) }) == 0 by {
        lemma_count_one(instr, Instr::Int { var: Operand::Temp(n) });
    }
    assert forall|name: Seq<char>| #[trigger] count(seq![instr], Instr::Label { name }) == 0 by {
        lemma_count_one(instr, Instr::Label { name });
    }
    assert forall|name: Seq<char>| !fresh_label(name, at, at) by {
        lemma_fresh_none(name, at, at);
    }
}

/// The declaration of the next temporary.
pub proof fn lemma_counted_temp(lo: Counters, hi: Counters)
    requires
        hi == (Counters { temps: lo.temps + 1, ..lo }),
    ensures
        counted(seq![Instr::Int { var: Operand::Temp(hi.temps) }], lo, hi),
{
    let instr = Instr::Int { var: Operand::Temp(hi.temps) };
    assert forall|n: nat| #[trigger]
        count(seq![instr], Instr::Int { var: Operand::Temp(n) }) == if lo.temps < n <= hi.temps {
            1nat
        } else {
            0nat
        } by {
        lemma_count_one(instr, Instr::Int { var: Operand::Temp(n) });
    }
    assert forall|name: Seq<char>| #[trigger] count(seq![instr], Instr::Label { name }) == 0 by {
        lemma_count_one(instr, Instr::Label { name });
    }
    assert forall|name: Seq<char>| !fresh_label(name, lo, hi) by {
        lemma_fresh_none(name, lo, hi);
    }
}

/// Code whose counters go from `lo` to `mid`, followed or preceded by code
/// whose counters go from `mid` to `hi`.
pub proof fn lemma_counted_join(
    a: Seq<Instr>,
    b: Seq<Instr>,
    lo: Counters,
    mid: Counters,
    hi: Counters,
)
    requires
        le(lo, mid),
        le(mid, hi),
        counted(a, lo, mid) && counted(b, mid, hi) || counted(a, mid, hi) && counted(b, lo, mid),
    ensures
        counted(a + b, lo, hi),
{
    assert forall|n: nat| #[trigger]
        count(a + b, Instr::Int { var: Operand::Temp(n) }) == if lo.temps < n <= hi.temps {
            1nat
        } else {
            0nat
        } by {
        lemma_count_concat(a, b, Instr::Int { var: Operand::Temp(n) });
    }
    assert forall|name: Seq<char>| #[trigger]
        count(a + b, Instr::Label { name }) == if fresh_label(name, lo, hi) {
            1nat
        } else {
            0nat
        } by {
        lemma_count_concat(a, b, Instr::Label { name });
        lemma_fresh_split(name, lo, mid, hi);
    }
}

/// Whether every name in `a` is in `b`.
pub open spec fn includes(a: Seq<Seq<char>>, b: Seq<Seq<char>>) -> bool {
    forall|name: Seq<char>| a.contains(name) ==> b.contains(name)
}

/// Two lists of names joined include both.
pub proof fn lemma_includes_more(a: Seq<Seq<char>>, more: Seq<Seq<char>>)
    ensures
        includes(a, a + more),
        includes(more, a + more),
{
    assert forall|name: Seq<char>| a.contains(name) implies (a + more).contains(name) by {
        let k = choose|k: int| 0 <= k < a.len() && a[k] == name;
        assert((a + more)[k] == name);
    }
    assert forall|name: Seq<char>| more.contains(name) implies (a + more).contains(name) by {
        let k = choose|k: int| 0 <= k < more.len() && more[k] == name;
        assert((a + more)[a.len() + k] == name);
    }
}

/// Whether an operand is a number that fits in 32 bits, a variable of the
/// scope, or a temporary made between `lo` and `hi`.
pub open spec fn operand_ok(operand: Operand, symbols: Seq<Seq<char>>, lo: Counters, hi: Counters) -> bool {
    match operand {
        Operand::Lit(n) => i32::MIN <= n <= i32::MAX,
        Operand::Var(name) => symbols.contains(name),
        Operand::Temp(n) => lo.temps < n <= hi.temps,
    }
}

/// Whether a jump's target is a label made between `lo` and `hi`, or one of
/// the innermost enclosing loop.
pub open spec fn target_ok(
    target: Seq<char>,
    lo: Counters,
    hi: Counters,
    outer: Seq<(Seq<char>, Seq<char>)>,
) -> bool {
    fresh_label(target, lo, hi) || (outer.len() > 0 && (target == outer.last().0 || target
        == outer.last().1))
}

/// Whether an instruction is one of a function's body and refers only to
/// what is known where it stands: variables and arrays of the scope,
/// temporaries and labels made between `lo` and `hi`, the labels of the
/// enclosing loop, functions of the scope. What it declares is in the
/// scope, and an array that it declares has a size from 1 to the largest
/// 32-bit number.
pub open spec fn instr_ok(
    instr: Instr,
    scope: Scope,
    lo: Counters,
    hi: Counters,
    outer: Seq<(Seq<char>, Seq<char>)>,
) -> bool {
    match instr {
        Instr::Func { .. } => false,
        Instr::EndFunc => false,
        Instr::Int { var } => match var {
            Operand::Lit(_) => false,
            Operand::Var(name) => scope.symbols.contains(name),
            Operand::Temp(_) => true,
        },
        Instr::Array { name, size } => scope.arrays.contains(name) && 0 < size <= i32::MAX,
        Instr::Label { .. } => true,
        Instr::Mov { dst, src } => operand_ok(dst, scope.symbols, lo, hi) && operand_ok(
            src,
            scope.symbols,
            lo,
            hi,
        ),
        Instr::Store { array, index, src } => scope.arrays.contains(array) && operand_ok(
            index,
            scope.symbols,
            lo,
            hi,
        ) && operand_ok(src, scope.symbols, lo, hi),
        Instr::Load { dst, array, index } => scope.arrays.contains(array) && operand_ok(
            dst,
            scope.symbols,
            lo,
            hi,
        ) && operand_ok(index, scope.symbols, lo, hi),
        Instr::Binary { op, dst, left, right } => operand_ok(dst, scope.symbols, lo, hi)
            && operand_ok(left, scope.symbols, lo, hi) && operand_ok(
            right,
            scope.symbols,
            lo,
            hi,
        ),
        Instr::Jmp { target } => target_ok(target, lo, hi, outer),
        Instr::BranchIf { cond, target } => operand_ok(cond, scope.symbols, lo, hi) && target_ok(
            target,
            lo,
            hi,
            outer,
        ),
        Instr::BranchIfn { cond, target } => operand_ok(cond, scope.symbols, lo, hi) && target_ok(
            target,
            lo,
            hi,
            outer,
        ),
        Instr::Call { dst, func, args } => operand_ok(dst, scope.symbols, lo, hi)
            && scope.functions.contains(func) && forall|j: int|
            0 <= j < args.len() ==> operand_ok(#[trigger] args[j], scope.symbols, lo, hi),
        Instr::Ret { value } => operand_ok(value, scope.symbols, lo, hi),
        Instr::Out { value } => operand_ok(value, scope.symbols, lo, hi),
        Instr::Input { value } => operand_ok(value, scope.symbols, lo, hi),
    }
}

/// Whether every instruction of a piece of code refers only to what is
/// known where the code stands.
pub open spec fn closed(
    code: Seq<Instr>,
    scope: Scope,
    lo: Counters,
    hi: Counters,
    outer: Seq<(Seq<char>, Seq<char>)>,
) -> bool {
    forall|k: int| 0 <= k < code.len() ==> instr_ok(#[trigger] code[k], scope, lo, hi, outer)
}

/// Whether the second scope holds every name of the first.
pub open spec fn scope_includes(a: Scope, b: Scope) -> bool {
    includes(a.symbols, b.symbols) && includes(a.arrays, b.arrays) && includes(
        a.functions,
        b.functions,
    )
}

/// A label made between two counters is made between counters that lie
/// further apart.
pub proof fn lemma_fresh_widen(name: Seq<char>, lo: Counters, hi: Counters, lo2: Counters, hi2: Counters)
    requires
        fresh_label(name, lo, hi),
        le(lo2, lo),
        le(hi, hi2),
    ensures
        fresh_label(name, lo2, hi2),
{
    let (kind, n) = choose|kind: LabelKind, n: nat| #[trigger]
        label_text(kind, n) == name && counter_of(kind, lo) < n <= counter_of(kind, hi);
    assert(label_text(kind, n) == name);
}

/// What is known in a scope and a range of counters is known in a larger
/// scope and a wider range.
pub proof fn lemma_instr_widen(
    instr: Instr,
    scope: Scope,
    lo: Counters,
    hi: Counters,
    outer: Seq<(Seq<char>, Seq<char>)>,
    scope2: Scope,
    lo2: Counters,
    hi2: Counters,
)
    requires
        instr_ok(instr, scope, lo, hi, outer),
        scope_includes(scope, scope2),
        le(lo2, lo),
        le(hi, hi2),
    ensures
        instr_ok(instr, scope2, lo2, hi2, outer),
{
    assert forall|target: Seq<char>| target_ok(target, lo, hi, outer) implies target_ok(
        target,
        lo2,
        hi2,
        outer,
    ) by {
        if fresh_label(target, lo, hi) {
            lemma_fresh_widen(target, lo, hi, lo2, hi2);
        }
    }
    assert forall|operand: Operand| operand_ok(operand, scope.symbols, lo, hi) implies operand_ok(
        operand,
        scope2.symbols,
        lo2,
        hi2,
    ) by {}
    match instr {
        Instr::Call { dst, func, args } => {
            assert forall|j: int| 0 <= j < args.len() implies operand_ok(
                #[trigger] args[j],
                scope2.symbols,
                lo2,
                hi2,
            ) by {
                assert(operand_ok(args[j], scope.symbols, lo, hi));
            }
        },
        _ => {},
    }
}

/// Code that is closed stays so where more is known.
pub proof fn lemma_closed_widen(
    code: Seq<Instr>,
    scope: Scope,
    lo: Counters,
    hi: Counters,
    outer: Seq<(Seq<char>, Seq<char>)>,
    scope2: Scope,
    lo2: Counters,
    hi2: Counters,
)
    requires
        closed(code, scope, lo, hi, outer),
        scope_includes(scope, scope2),
        le(lo2, lo),
        le(hi, hi2),
    ensures
        closed(code, scope2, lo2, hi2, outer),
{
    assert forall|k: int| 0 <= k < code.len() implies instr_ok(
        #[trigger] code[k],
        scope2,
        lo2,
        hi2,
        outer,
    ) by {
        lemma_instr_widen(code[k], scope, lo, hi, outer, scope2, lo2, hi2);
    }
}

/// Two pieces of closed code are closed together.
pub proof fn lemma_closed_concat(
    a: Seq<Instr>,
    b: Seq<Instr>,
    scope: Scope,
    lo: Counters,
    hi: Counters,
    outer: Seq<(Seq<char>, Seq<char>)>,
)
    requires
        closed(a, scope, lo, hi, outer),
        closed(b, scope, lo, hi, outer),
    ensures
        closed(a + b, scope, lo, hi, outer),
{
    assert forall|k: int| 0 <= k < (a + b).len() implies instr_ok(
        #[trigger] (a + b)[k],
        scope,
        lo,
        hi,
        outer,
    ) by {
        if k < a.len() {
            assert((a + b)[k] == a[k]);
        } else {
            assert((a + b)[k] == b[k - a.len()]);
        }
    }
}

/// One instruction that is right is closed code.
pub proof fn lemma_closed_one(
    instr: Instr,
    scope: Scope,
    lo: Counters,
    hi: Counters,
    outer: Seq<(Seq<char>, Seq<char>)>,
)
    requires
        instr_ok(instr, scope, lo, hi, outer),
    ensures
        closed(seq![instr], scope, lo, hi, outer),
{
}

/// Code that stands in a loop whose labels are made between `lo` and `hi`
/// refers to nothing of that loop that is not known outside it.
pub proof fn lemma_closed_leave(
    code: Seq<Instr>,
    scope: Scope,
    lo: Counters,
    hi: Counters,
    inner: Seq<(Seq<char>, Seq<char>)>,
    outer: Seq<(Seq<char>, Seq<char>)>,
)
    requires
        closed(code, scope, lo, hi, inner),
        inner.len() > 0,
        fresh_label(inner.last().0, lo, hi),
        fresh_label(inner.last().1, lo, hi),
    ensures
        closed(code, scope, lo, hi, outer),
{
    assert forall|k: int| 0 <= k < code.len() implies instr_ok(
        #[trigger] code[k],
        scope,
        lo,
        hi,
        outer,
    ) by {
        assert(instr_ok(code[k], scope, lo, hi, inner));
    }
}

/// The functions that a piece of code defines, in order.
pub open spec fn defined_functions(code: Seq<Instr>) -> Seq<Seq<char>>
    decreases code.len(),
{
    if code.len() == 0 {
        Seq::empty()
    } else {
        let before = defined_functions(code.drop_last());
        match code.last() {
            Instr::Func { name, params } => before.push(name),
            _ => before,
        }
    }
}

/// Two pieces of code define the functions of the first and then those
/// of the second.
pub proof fn lemma_defined_concat(a: Seq<Instr>, b: Seq<Instr>)
    ensures
        defined_functions(a + b) == defined_functions(a) + defined_functions(b),
    decreases b.len(),
{
    if b.len() == 0 {
        assert(a + b =~= a);
        assert(defined_functions(a) + defined_functions(b) =~= defined_functions(a));
    } else {
        lemma_defined_concat(a, b.drop_last());
        assert((a + b).drop_last() =~= a + b.drop_last());
        assert(defined_functions(a + b) =~= defined_functions(a) + defined_functions(b));
    }
}

/// The function that one instruction defines.
pub proof fn lemma_defined_one(instr: Instr)
    ensures
        defined_functions(seq![instr]) == match instr {
            Instr::Func { name, params } => seq![name],
            _ => Seq::empty(),
        },
{
    assert(seq![instr].drop_last() =~= Seq::<Instr>::empty());
    assert(defined_functions(Seq::<Instr>::empty()) =~= Seq::empty());
    assert(defined_functions(seq![instr]) =~= match instr {
        Instr::Func { name, params } => seq![name],
        _ => Seq::empty(),
    });
}

/// The body of a function defines no function.
pub proof fn lemma_defined_none(
    code: Seq<Instr>,
    scope: Scope,
    lo: Counters,
    hi: Counters,
    outer: Seq<(Seq<char>, Seq<char>)>,
)
    requires
        closed(code, scope, lo, hi, outer),
    ensures
        defined_functions(code) == Seq::<Seq<char>>::empty(),
    decreases code.len(),
{
    if code.len() > 0 {
        assert forall|k: int| 0 <= k < code.drop_last().len() implies instr_ok(
            #[trigger] code.drop_last()[k],
            scope,
            lo,
            hi,
            outer,
        ) by {
            assert(code.drop_last()[k] == code[k]);
        }
        lemma_defined_none(code.drop_last(), scope, lo, hi, outer);
        assert(instr_ok(code[code.len() - 1], scope, lo, hi, outer));
    }
}

} // verus!
