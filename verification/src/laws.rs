//! What holds of the code of every program: temporaries and labels are
//! made once, jumps have their labels, names are used in their scope.

use crate::grammar::{
    additive, assignment, binary, block, bool_operation, branch_code, call, call_arguments,
    condition_in, declaration, element, expect, expect_step, expression, expression_rest,
    function, function_code, functions_from, if_statement, jump_statement, loop_code,
    mul_expression, mul_rest, multiplicative, parameters, program, relational, return_statement,
    statement, statements, term, token_at, transfer_statement, while_statement, Counters,
    ExprIr, ParseState, Scope, Step,
};
use crate::ir::{
    branch_else, branch_end, branch_then, loop_begin, loop_end, BinaryOp, Instr, Operand,
};
use crate::sound::{
    closed, count, counted, declared_arrays, declared_vars, declares_array, defined_functions,
    fresh_label, includes, instr_ok, is_array_of, le, lemma_closed_concat, lemma_closed_leave,
    lemma_closed_one, lemma_closed_widen, lemma_count_concat, lemma_count_contains,
    lemma_count_one, lemma_counted_empty, lemma_counted_join, lemma_counted_plain,
    lemma_counted_temp, lemma_declared_concat, lemma_declared_contains, lemma_declared_one,
    lemma_defined_concat, lemma_defined_none, lemma_defined_one, lemma_fresh_branch,
    lemma_fresh_loop, lemma_fresh_none, lemma_fresh_split, lemma_fresh_widen,
    lemma_includes_more, operand_ok,
};
use crate::token::TokenView;
use vstd::prelude::*;

verus! {

/// Whether a piece of code that declares no variable and no array is right
/// for counters that go from `lo` to `hi`: it declares each temporary and
/// defines each label made on the way once, and refers only to those, to
/// the scope and to the enclosing loop.
pub open spec fn quiet(
    code: Seq<Instr>,
    scope: Scope,
    outer: Seq<(Seq<char>, Seq<char>)>,
    lo: Counters,
    hi: Counters,
) -> bool {
    &&& le(lo, hi)
    &&& counted(code, lo, hi)
    &&& closed(code, scope, lo, hi, outer)
    &&& declared_vars(code) == Seq::<Seq<char>>::empty()
    &&& declared_arrays(code) == Seq::<Seq<char>>::empty()
}

/// Whether an instruction declares nothing and defines no label.
pub open spec fn plain(instr: Instr) -> bool {
    !(instr is Label) && !(instr is Int) && !(instr is Array)
}

/// Code without instructions is right for counters that stay as they are.
pub proof fn lemma_quiet_empty(scope: Scope, outer: Seq<(Seq<char>, Seq<char>)>, at: Counters)
    ensures
        quiet(Seq::empty(), scope, outer, at, at),
{
    lemma_counted_empty(at);
}

/// Two pieces, the counters of one going from `lo` to `mid` and those of
/// the other from `mid` to `hi`, in either order.
pub proof fn lemma_quiet_join(
    a: Seq<Instr>,
    b: Seq<Instr>,
    scope: Scope,
    outer: Seq<(Seq<char>, Seq<char>)>,
    lo: Counters,
    mid: Counters,
    hi: Counters,
)
    requires
        quiet(a, scope, outer, lo, mid) && quiet(b, scope, outer, mid, hi) || quiet(
            a,
            scope,
            outer,
            mid,
            hi,
        ) && quiet(b, scope, outer, lo, mid),
    ensures
        quiet(a + b, scope, outer, lo, hi),
{
    lemma_counted_join(a, b, lo, mid, hi);
    if quiet(a, scope, outer, lo, mid) && quiet(b, scope, outer, mid, hi) {
        lemma_closed_widen(a, scope, lo, mid, outer, scope, lo, hi);
        lemma_closed_widen(b, scope, mid, hi, outer, scope, lo, hi);
    } else {
        lemma_closed_widen(a, scope, mid, hi, outer, scope, lo, hi);
        lemma_closed_widen(b, scope, lo, mid, outer, scope, lo, hi);
    }
    lemma_closed_concat(a, b, scope, lo, hi, outer);
    lemma_declared_concat(a, b);
    assert(declared_vars(a) + declared_vars(b) =~= Seq::<Seq<char>>::empty());
    assert(declared_arrays(a) + declared_arrays(b) =~= Seq::<Seq<char>>::empty());
}

/// A piece followed by an instruction that declares and defines nothing.
pub proof fn lemma_quiet_then(
    code: Seq<Instr>,
    instr: Instr,
    scope: Scope,
    outer: Seq<(Seq<char>, Seq<char>)>,
    lo: Counters,
    hi: Counters,
)
    requires
        quiet(code, scope, outer, lo, hi),
        plain(instr),
        instr_ok(instr, scope, lo, hi, outer),
    ensures
        quiet(code + seq![instr], scope, outer, lo, hi),
{
    lemma_counted_plain(instr, hi);
    lemma_counted_join(code, seq![instr], lo, hi, hi);
    lemma_closed_one(instr, scope, lo, hi, outer);
    lemma_closed_concat(code, seq![instr], scope, lo, hi, outer);
    lemma_declared_concat(code, seq![instr]);
    lemma_declared_one(instr);
    assert(declared_vars(code) + declared_vars(seq![instr]) =~= Seq::<Seq<char>>::empty());
    assert(declared_arrays(code) + declared_arrays(seq![instr]) =~= Seq::<Seq<char>>::empty());
}

/// The declaration of the next temporary.
pub proof fn lemma_quiet_temp(
    scope: Scope,
    outer: Seq<(Seq<char>, Seq<char>)>,
    lo: Counters,
    hi: Counters,
)
    requires
        hi == (Counters { temps: lo.temps + 1, ..lo }),
    ensures
        quiet(seq![Instr::Int { var: Operand::Temp(hi.temps) }], scope, outer, lo, hi),
{
    let instr = Instr::Int { var: Operand::Temp(hi.temps) };
    lemma_counted_temp(lo, hi);
    lemma_closed_one(instr, scope, lo, hi, outer);
    lemma_declared_one(instr);
}

/// The counters `base` with another number of temporaries.
pub open spec fn with_temps(base: Counters, temps: nat) -> Counters {
    Counters { temps, ..base }
}

/// Whether an expression is right for a counter of temporaries that goes
/// from `lo` to `hi`.
pub open spec fn expr_ok(
    scope: Scope,
    outer: Seq<(Seq<char>, Seq<char>)>,
    base: Counters,
    lo: nat,
    hi: nat,
    e: ExprIr,
) -> bool {
    &&& quiet(e.code, scope, outer, with_temps(base, lo), with_temps(base, hi))
    &&& operand_ok(e.operand, scope.symbols, with_temps(base, lo), with_temps(base, hi))
}

/// Whether the expression that a step found, if it found one, is right.
pub open spec fn step_ok(
    scope: Scope,
    outer: Seq<(Seq<char>, Seq<char>)>,
    base: Counters,
    lo: nat,
    step: Step<ExprIr>,
) -> bool {
    step.result matches Ok(e) ==> expr_ok(scope, outer, base, lo, step.temps, e)
}

/// An expression that is right for a range of temporaries is right for a
/// range that starts earlier.
pub proof fn lemma_operand_earlier(
    operand: Operand,
    symbols: Seq<Seq<char>>,
    base: Counters,
    lo: nat,
    mid: nat,
    hi: nat,
    top: nat,
)
    requires
        lo <= mid,
        hi <= top,
        operand_ok(operand, symbols, with_temps(base, mid), with_temps(base, hi)),
    ensures
        operand_ok(operand, symbols, with_temps(base, lo), with_temps(base, top)),
{
}

/// An operation on two expressions that are right is right, with one more
/// temporary.
pub proof fn lemma_binary_ok(
    scope: Scope,
    outer: Seq<(Seq<char>, Seq<char>)>,
    base: Counters,
    lo: nat,
    mid: nat,
    hi: nat,
    op: BinaryOp,
    left: ExprIr,
    right: ExprIr,
)
    requires
        expr_ok(scope, outer, base, lo, mid, left),
        expr_ok(scope, outer, base, mid, hi, right),
    ensures
        expr_ok(scope, outer, base, lo, hi + 1, binary(op, left, right, hi + 1)),
{
    let t = hi + 1;
    let c_lo = with_temps(base, lo);
    let c_mid = with_temps(base, mid);
    let c_hi = with_temps(base, hi);
    let c_t = with_temps(base, t);
    let declare = seq![Instr::Int { var: Operand::Temp(t) }];
    let operation = Instr::Binary {
        op,
        dst: Operand::Temp(t),
        left: left.operand,
        right: right.operand,
    };
    lemma_quiet_temp(scope, outer, c_hi, c_t);
    lemma_quiet_join(declare, right.code, scope, outer, c_mid, c_hi, c_t);
    lemma_quiet_join(left.code, declare + right.code, scope, outer, c_lo, c_mid, c_t);
    lemma_quiet_then(left.code + (declare + right.code), operation, scope, outer, c_lo, c_t);
    assert(binary(op, left, right, t).code =~= left.code + (declare + right.code) + seq![
        operation,
    ]);
}

/// An element of a known array at an index that is right is right, with
/// one more temporary.
pub proof fn lemma_element_ok(
    scope: Scope,
    outer: Seq<(Seq<char>, Seq<char>)>,
    base: Counters,
    lo: nat,
    hi: nat,
    array: Seq<char>,
    index: ExprIr,
)
    requires
        expr_ok(scope, outer, base, lo, hi, index),
        scope.arrays.contains(array),
    ensures
        expr_ok(scope, outer, base, lo, hi + 1, element(array, index, hi + 1)),
{
    let t = hi + 1;
    let c_lo = with_temps(base, lo);
    let c_hi = with_temps(base, hi);
    let c_t = with_temps(base, t);
    let declare = seq![Instr::Int { var: Operand::Temp(t) }];
    let load = Instr::Load { dst: Operand::Temp(t), array, index: index.operand };
    lemma_quiet_temp(scope, outer, c_hi, c_t);
    lemma_quiet_join(declare, index.code, scope, outer, c_lo, c_hi, c_t);
    lemma_quiet_then(declare + index.code, load, scope, outer, c_lo, c_t);
}

/// Whether the code and the operands of the arguments of a call are right
/// for a counter of temporaries that goes from `lo` to `hi`.
pub open spec fn args_ok(
    scope: Scope,
    outer: Seq<(Seq<char>, Seq<char>)>,
    base: Counters,
    lo: nat,
    hi: nat,
    code: Seq<Instr>,
    operands: Seq<Operand>,
) -> bool {
    &&& quiet(code, scope, outer, with_temps(base, lo), with_temps(base, hi))
    &&& forall|j: int|
        0 <= j < operands.len() ==> operand_ok(
            #[trigger] operands[j],
            scope.symbols,
            with_temps(base, lo),
            with_temps(base, hi),
        )
}

/// A call of a known function with arguments that are right is right,
/// with one more temporary.
pub proof fn lemma_call_ok(
    scope: Scope,
    outer: Seq<(Seq<char>, Seq<char>)>,
    base: Counters,
    lo: nat,
    hi: nat,
    func: Seq<char>,
    code: Seq<Instr>,
    operands: Seq<Operand>,
)
    requires
        args_ok(scope, outer, base, lo, hi, code, operands),
        scope.functions.contains(func),
    ensures
        expr_ok(scope, outer, base, lo, hi + 1, call(func, code, operands, hi + 1)),
{
    let t = hi + 1;
    let c_lo = with_temps(base, lo);
    let c_hi = with_temps(base, hi);
    let c_t = with_temps(base, t);
    let declare = seq![Instr::Int { var: Operand::Temp(t) }];
    let invoke = Instr::Call { dst: Operand::Temp(t), func, args: operands };
    lemma_quiet_temp(scope, outer, c_hi, c_t);
    lemma_quiet_join(code, declare, scope, outer, c_lo, c_hi, c_t);
    assert forall|j: int| 0 <= j < operands.len() implies operand_ok(
        #[trigger] operands[j],
        scope.symbols,
        c_lo,
        c_t,
    ) by {
        lemma_operand_earlier(operands[j], scope.symbols, base, lo, lo, hi, t);
    }
    lemma_quiet_then(code + declare, invoke, scope, outer, c_lo, c_t);
    assert(call(func, code, operands, t).code =~= code + declare + seq![invoke]);
}

/// One more argument after the arguments so far.
pub proof fn lemma_args_more(
    scope: Scope,
    outer: Seq<(Seq<char>, Seq<char>)>,
    base: Counters,
    lo: nat,
    mid: nat,
    hi: nat,
    code: Seq<Instr>,
    operands: Seq<Operand>,
    e: ExprIr,
)
    requires
        args_ok(scope, outer, base, lo, mid, code, operands),
        expr_ok(scope, outer, base, mid, hi, e),
    ensures
        args_ok(scope, outer, base, lo, hi, code + e.code, operands.push(e.operand)),
{
    let c_lo = with_temps(base, lo);
    let c_mid = with_temps(base, mid);
    let c_hi = with_temps(base, hi);
    lemma_quiet_join(code, e.code, scope, outer, c_lo, c_mid, c_hi);
    assert forall|j: int| 0 <= j < operands.push(e.operand).len() implies operand_ok(
        #[trigger] operands.push(e.operand)[j],
        scope.symbols,
        c_lo,
        c_hi,
    ) by {
        if j < operands.len() {
            lemma_operand_earlier(operands[j], scope.symbols, base, lo, lo, mid, hi);
        } else {
            lemma_operand_earlier(e.operand, scope.symbols, base, lo, mid, hi, hi);
        }
    }
}

/// What a term lowers to is right.
pub proof fn lemma_term(
    tokens: Seq<TokenView>,
    scope: Scope,
    outer: Seq<(Seq<char>, Seq<char>)>,
    base: Counters,
    at: int,
    temps: nat,
)
    ensures
        step_ok(scope, outer, base, temps, term(tokens, scope, at, temps)),
    decreases tokens.len() - at, 0nat,
{
    reveal(term);
    reveal(call_arguments);
    reveal(expression);
    let here = with_temps(base, temps);
    lemma_quiet_empty(scope, outer, here);
    match token_at(tokens, at) {
        Some(TokenView::Ident(name)) => match token_at(tokens, at + 1) {
            Some(TokenView::LeftParen) => {
                if scope.functions.contains(name) {
                    lemma_call_arguments(
                        tokens,
                        scope,
                        outer,
                        base,
                        at + 2,
                        temps,
                        Seq::empty(),
                        Seq::empty(),
                        temps,
                    );
                    let args = call_arguments(
                        tokens,
                        scope,
                        at + 2,
                        temps,
                        Seq::empty(),
                        Seq::empty(),
                    );
                    if let Ok((code, operands)) = args.result {
                        lemma_call_ok(scope, outer, base, temps, args.temps, name, code, operands);
                    }
                }
            },
            Some(TokenView::LeftBracket) => {
                if scope.arrays.contains(name) {
                    lemma_expression(tokens, scope, outer, base, at + 2, temps);
                    let index = expression(tokens, scope, at + 2, temps);
                    if let Ok(i) = index.result {
                        lemma_element_ok(scope, outer, base, temps, index.temps, name, i);
                    }
                }
            },
            _ => {},
        },
        Some(TokenView::LeftParen) => {
            lemma_expression(tokens, scope, outer, base, at + 1, temps);
        },
        _ => {},
    }
}

/// What the arguments of a call lower to is right.
pub proof fn lemma_call_arguments(
    tokens: Seq<TokenView>,
    scope: Scope,
    outer: Seq<(Seq<char>, Seq<char>)>,
    base: Counters,
    at: int,
    temps: nat,
    code: Seq<Instr>,
    operands: Seq<Operand>,
    lo: nat,
)
    requires
        args_ok(scope, outer, base, lo, temps, code, operands),
    ensures
        ({
            let all = call_arguments(tokens, scope, at, temps, code, operands);
            all.result matches Ok((c, o)) ==> args_ok(scope, outer, base, lo, all.temps, c, o)
        }),
    decreases tokens.len() - at, 3nat,
{
    reveal(call_arguments);
    reveal(expression);
    match token_at(tokens, at) {
        None => {},
        Some(TokenView::RightParen) => {},
        Some(_) => {
            lemma_expression(tokens, scope, outer, base, at, temps);
            let arg = expression(tokens, scope, at, temps);
            if let Ok(e) = arg.result {
                lemma_args_more(scope, outer, base, lo, temps, arg.temps, code, operands, e);
                match token_at(tokens, arg.at) {
                    Some(TokenView::Comma) => {
                        if at <= arg.at {
                            lemma_call_arguments(
                                tokens,
                                scope,
                                outer,
                                base,
                                arg.at + 1,
                                arg.temps,
                                code + e.code,
                                operands.push(e.operand),
                                lo,
                            );
                        }
                    },
                    _ => {},
                }
            }
        },
    }
}

/// What an expression lowers to is right.
pub proof fn lemma_expression(
    tokens: Seq<TokenView>,
    scope: Scope,
    outer: Seq<(Seq<char>, Seq<char>)>,
    base: Counters,
    at: int,
    temps: nat,
)
    ensures
        step_ok(scope, outer, base, temps, expression(tokens, scope, at, temps)),
    decreases tokens.len() - at, 2nat,
{
    reveal(expression);
    reveal(mul_expression);
    reveal(expression_rest);
    lemma_mul_expression(tokens, scope, outer, base, at, temps);
    let first = mul_expression(tokens, scope, at, temps);
    if let Ok(e) = first.result {
        if at <= first.at <= tokens.len() {
            lemma_expression_rest(tokens, scope, outer, base, first.at, first.temps, e, temps);
        }
    }
}

/// What the rest of an expression lowers to is right.
pub proof fn lemma_expression_rest(
    tokens: Seq<TokenView>,
    scope: Scope,
    outer: Seq<(Seq<char>, Seq<char>)>,
    base: Counters,
    at: int,
    temps: nat,
    left: ExprIr,
    lo: nat,
)
    requires
        expr_ok(scope, outer, base, lo, temps, left),
    ensures
        ({
            let all = expression_rest(tokens, scope, at, temps, left);
            all.result matches Ok(e) ==> expr_ok(scope, outer, base, lo, all.temps, e)
        }),
    decreases tokens.len() - at, 0nat,
{
    reveal(expression_rest);
    reveal(mul_expression);
    if let Some(token) = token_at(tokens, at) {
        if let Some(op) = additive(token) {
            lemma_mul_expression(tokens, scope, outer, base, at + 1, temps);
            let right = mul_expression(tokens, scope, at + 1, temps);
            if let Ok(r) = right.result {
                if at < right.at <= tokens.len() {
                    lemma_binary_ok(scope, outer, base, lo, temps, right.temps, op, left, r);
                    lemma_expression_rest(
                        tokens,
                        scope,
                        outer,
                        base,
                        right.at,
                        right.temps + 1,
                        binary(op, left, r, right.temps + 1),
                        lo,
                    );
                }
            }
        }
    }
}

/// What a product lowers to is right.
pub proof fn lemma_mul_expression(
    tokens: Seq<TokenView>,
    scope: Scope,
    outer: Seq<(Seq<char>, Seq<char>)>,
    base: Counters,
    at: int,
    temps: nat,
)
    ensures
        step_ok(scope, outer, base, temps, mul_expression(tokens, scope, at, temps)),
    decreases tokens.len() - at, 1nat,
{
    reveal(mul_expression);
    reveal(term);
    reveal(mul_rest);
    lemma_term(tokens, scope, outer, base, at, temps);
    let first = term(tokens, scope, at, temps);
    if let Ok(e) = first.result {
        if at <= first.at <= tokens.len() {
            lemma_mul_rest(tokens, scope, outer, base, first.at, first.temps, e, temps);
        }
    }
}

/// What the rest of a product lowers to is right.
pub proof fn lemma_mul_rest(
    tokens: Seq<TokenView>,
    scope: Scope,
    outer: Seq<(Seq<char>, Seq<char>)>,
    base: Counters,
    at: int,
    temps: nat,
    left: ExprIr,
    lo: nat,
)
    requires
        expr_ok(scope, outer, base, lo, temps, left),
    ensures
        ({
            let all = mul_rest(tokens, scope, at, temps, left);
            all.result matches Ok(e) ==> expr_ok(scope, outer, base, lo, all.temps, e)
        }),
    decreases tokens.len() - at, 0nat,
{
    reveal(mul_rest);
    reveal(term);
    if let Some(token) = token_at(tokens, at) {
        if let Some(op) = multiplicative(token) {
            lemma_term(tokens, scope, outer, base, at + 1, temps);
            let right = term(tokens, scope, at + 1, temps);
            if let Ok(r) = right.result {
                if at < right.at <= tokens.len() {
                    lemma_binary_ok(scope, outer, base, lo, temps, right.temps, op, left, r);
                    lemma_mul_rest(
                        tokens,
                        scope,
                        outer,
                        base,
                        right.at,
                        right.temps + 1,
                        binary(op, left, r, right.temps + 1),
                        lo,
                    );
                }
            }
        }
    }
}

/// What a comparison lowers to is right.
pub proof fn lemma_bool_operation(
    tokens: Seq<TokenView>,
    scope: Scope,
    outer: Seq<(Seq<char>, Seq<char>)>,
    base: Counters,
    at: int,
    temps: nat,
)
    ensures
        step_ok(scope, outer, base, temps, bool_operation(tokens, scope, at, temps)),
{
    reveal(bool_operation);
    lemma_term(tokens, scope, outer, base, at, temps);
    let left = term(tokens, scope, at, temps);
    if let Ok(l) = left.result {
        if let Some(token) = token_at(tokens, left.at) {
            lemma_term(tokens, scope, outer, base, left.at + 1, left.temps);
            let right = term(tokens, scope, left.at + 1, left.temps);
            if let Ok(r) = right.result {
                if let Some(op) = relational(token) {
                    lemma_binary_ok(scope, outer, base, temps, left.temps, right.temps, op, l, r);
                }
            }
        }
    }
}

/// A piece that is one instruction which declares and defines nothing.
pub proof fn lemma_quiet_one(
    instr: Instr,
    scope: Scope,
    outer: Seq<(Seq<char>, Seq<char>)>,
    lo: Counters,
    hi: Counters,
)
    requires
        le(lo, hi),
        plain(instr),
        instr_ok(instr, scope, lo, hi, outer),
    ensures
        closed(seq![instr], scope, lo, hi, outer),
        counted(seq![instr], hi, hi),
        counted(seq![instr], lo, lo),
        declared_vars(seq![instr]) == Seq::<Seq<char>>::empty(),
        declared_arrays(seq![instr]) == Seq::<Seq<char>>::empty(),
{
    lemma_counted_plain(instr, hi);
    lemma_counted_plain(instr, lo);
    lemma_closed_one(instr, scope, lo, hi, outer);
    lemma_declared_one(instr);
}

/// What an assignment lowers to is right.
pub proof fn lemma_assignment(
    tokens: Seq<TokenView>,
    scope: Scope,
    outer: Seq<(Seq<char>, Seq<char>)>,
    base: Counters,
    at: int,
    temps: nat,
    name: Seq<char>,
)
    ensures
        ({
            let all = assignment(tokens, scope, at, temps, name);
            all.result matches Ok(code) ==> quiet(
                code,
                scope,
                outer,
                with_temps(base, temps),
                with_temps(base, all.temps),
            )
        }),
{
    reveal(assignment);
    let c_lo = with_temps(base, temps);
    lemma_quiet_empty(scope, outer, c_lo);
    match token_at(tokens, at) {
        None => {},
        Some(TokenView::LeftBracket) => {
            if scope.arrays.contains(name) {
                lemma_expression(tokens, scope, outer, base, at + 1, temps);
                let index = expression(tokens, scope, at + 1, temps);
                if let Ok(i) = index.result {
                    let close = expect_step(
                        tokens,
                        index.at,
                        index.temps,
                        TokenView::RightBracket,
                        "expected ']'"@,
                    );
                    let sign = expect_step(
                        tokens,
                        close.at,
                        close.temps,
                        TokenView::Assign,
                        "expected '=' assignment operator"@,
                    );
                    lemma_expression(tokens, scope, outer, base, sign.at, index.temps);
                    let value = expression(tokens, scope, sign.at, index.temps);
                    if let Ok(v) = value.result {
                        let c_mid = with_temps(base, index.temps);
                        let c_hi = with_temps(base, value.temps);
                        let store = Instr::Store { array: name, index: i.operand, src: v.operand };
                        lemma_quiet_join(v.code, i.code, scope, outer, c_lo, c_mid, c_hi);
                        lemma_operand_earlier(
                            i.operand,
                            scope.symbols,
                            base,
                            temps,
                            temps,
                            index.temps,
                            value.temps,
                        );
                        lemma_operand_earlier(
                            v.operand,
                            scope.symbols,
                            base,
                            temps,
                            index.temps,
                            value.temps,
                            value.temps,
                        );
                        lemma_quiet_then(v.code + i.code, store, scope, outer, c_lo, c_hi);
                    }
                }
            }
        },
        Some(_) => {
            if scope.symbols.contains(name) {
                let sign = expect_step(
                    tokens,
                    at,
                    temps,
                    TokenView::Assign,
                    "expected '=' assignment operator"@,
                );
                lemma_expression(tokens, scope, outer, base, sign.at, temps);
                let value = expression(tokens, scope, sign.at, temps);
                if let Ok(v) = value.result {
                    let c_hi = with_temps(base, value.temps);
                    let mov = Instr::Mov { dst: Operand::Var(name), src: v.operand };
                    lemma_quiet_then(v.code, mov, scope, outer, c_lo, c_hi);
                    assert(v.code + Seq::<Instr>::empty() =~= v.code);
                }
            }
        },
    }
}

/// What `return` lowers to is right.
pub proof fn lemma_return_statement(
    tokens: Seq<TokenView>,
    scope: Scope,
    outer: Seq<(Seq<char>, Seq<char>)>,
    base: Counters,
    at: int,
    temps: nat,
)
    ensures
        ({
            let all = return_statement(tokens, scope, at, temps);
            all.result matches Ok(code) ==> quiet(
                code,
                scope,
                outer,
                with_temps(base, temps),
                with_temps(base, all.temps),
            )
        }),
{
    reveal(return_statement);
    lemma_expression(tokens, scope, outer, base, at, temps);
    let value = expression(tokens, scope, at, temps);
    if let Ok(v) = value.result {
        lemma_quiet_then(
            v.code,
            Instr::Ret { value: v.operand },
            scope,
            outer,
            with_temps(base, temps),
            with_temps(base, value.temps),
        );
    }
}

/// What `print` and `read` lower to is right.
pub proof fn lemma_transfer_statement(
    tokens: Seq<TokenView>,
    scope: Scope,
    outer: Seq<(Seq<char>, Seq<char>)>,
    base: Counters,
    at: int,
    temps: nat,
    reads: bool,
)
    ensures
        ({
            let all = transfer_statement(tokens, scope, at, temps, reads);
            all.result matches Ok(code) ==> quiet(
                code,
                scope,
                outer,
                with_temps(base, temps),
                with_temps(base, all.temps),
            )
        }),
{
    reveal(transfer_statement);
    let open = expect_step(
        tokens,
        at,
        temps,
        TokenView::LeftParen,
        "expect '(' opening statement"@,
    );
    lemma_expression(tokens, scope, outer, base, open.at, temps);
    let value = expression(tokens, scope, open.at, temps);
    if let Ok(v) = value.result {
        let instr = if reads {
            Instr::Input { value: v.operand }
        } else {
            Instr::Out { value: v.operand }
        };
        lemma_quiet_then(
            v.code,
            instr,
            scope,
            outer,
            with_temps(base, temps),
            with_temps(base, value.temps),
        );
    }
}

/// What `break` and `continue` lower to is right.
pub proof fn lemma_jump_statement(
    tokens: Seq<TokenView>,
    scope: Scope,
    at: int,
    labels: Seq<(Seq<char>, Seq<char>)>,
    again: bool,
    here: Counters,
)
    ensures
        ({
            let all = jump_statement(tokens, at, labels, again);
            all.result matches Ok(code) ==> quiet(code, scope, labels, here, here)
        }),
{
    reveal(jump_statement);
    if labels.len() > 0 {
        let jump = Instr::Jmp {
            target: if again {
                labels.last().0
            } else {
                labels.last().1
            },
        };
        lemma_quiet_one(jump, scope, labels, here, here);
    }
}

/// Whether no name stands twice in the tables of the variables and the
/// arrays, be it twice in one or once in each.
pub open spec fn declared_once(symbols: Seq<Seq<char>>, arrays: Seq<Seq<char>>) -> bool {
    &&& symbols.no_duplicates()
    &&& arrays.no_duplicates()
    &&& forall|name: Seq<char>| !(symbols.contains(name) && arrays.contains(name))
}

/// A name that is in neither table can join either.
pub proof fn lemma_declared_once_more(
    symbols: Seq<Seq<char>>,
    arrays: Seq<Seq<char>>,
    name: Seq<char>,
)
    requires
        declared_once(symbols, arrays),
        !symbols.contains(name),
        !arrays.contains(name),
    ensures
        declared_once(symbols.push(name), arrays),
        declared_once(symbols, arrays.push(name)),
{
    assert forall|other: Seq<char>| symbols.push(name).contains(other) implies other == name
        || symbols.contains(other) by {
        let k = choose|k: int| 0 <= k < symbols.push(name).len() && symbols.push(name)[k] == other;
        if k < symbols.len() {
            assert(symbols[k] == other);
        }
    }
    assert forall|other: Seq<char>| arrays.push(name).contains(other) implies other == name
        || arrays.contains(other) by {
        let k = choose|k: int| 0 <= k < arrays.push(name).len() && arrays.push(name)[k] == other;
        if k < arrays.len() {
            assert(arrays[k] == other);
        }
    }
    assert forall|i: int, j: int|
        0 <= i < symbols.push(name).len() && 0 <= j < symbols.push(name).len() && i
            != j implies symbols.push(name)[i] != symbols.push(name)[j] by {
        if i < symbols.len() && j < symbols.len() {
        } else if i < symbols.len() {
            assert(symbols.contains(symbols[i]));
        } else {
            assert(symbols.contains(symbols[j]));
        }
    }
    assert forall|i: int, j: int|
        0 <= i < arrays.push(name).len() && 0 <= j < arrays.push(name).len() && i
            != j implies arrays.push(name)[i] != arrays.push(name)[j] by {
        if i < arrays.len() && j < arrays.len() {
        } else if i < arrays.len() {
            assert(arrays.contains(arrays[i]));
        } else {
            assert(arrays.contains(arrays[j]));
        }
    }
}

/// Whether a statement's code is right for the state before it and the
/// state after it: the labels of the enclosing loops and the functions are
/// the same, the tables have grown by what the code declares and hold no
/// name twice if they held none twice before, and the code declares each
/// temporary and defines each label made on the way once and refers only
/// to what is known after it.
pub open spec fn stmt_ok(before: ParseState, after: ParseState, code: Seq<Instr>) -> bool {
    &&& after.labels == before.labels
    &&& declared_once(before.scope.symbols, before.scope.arrays) ==> declared_once(
        after.scope.symbols,
        after.scope.arrays,
    )
    &&& after.scope.functions == before.scope.functions
    &&& after.scope.symbols == before.scope.symbols + declared_vars(code)
    &&& after.scope.arrays == before.scope.arrays + declared_arrays(code)
    &&& le(before.counters, after.counters)
    &&& counted(code, before.counters, after.counters)
    &&& closed(code, after.scope, before.counters, after.counters, before.labels)
}

/// Code that declares nothing is right for states that differ in the
/// position and the counters only.
pub proof fn lemma_stmt_quiet(before: ParseState, after: ParseState, code: Seq<Instr>)
    requires
        quiet(code, before.scope, before.labels, before.counters, after.counters),
        after.labels == before.labels,
        after.scope == before.scope,
    ensures
        stmt_ok(before, after, code),
{
    assert(before.scope.symbols + declared_vars(code) =~= before.scope.symbols);
    assert(before.scope.arrays + declared_arrays(code) =~= before.scope.arrays);
}

/// One statement after another.
pub proof fn lemma_stmt_join(
    before: ParseState,
    between: ParseState,
    after: ParseState,
    a: Seq<Instr>,
    b: Seq<Instr>,
)
    requires
        stmt_ok(before, between, a),
        stmt_ok(between, after, b),
    ensures
        stmt_ok(before, after, a + b),
{
    lemma_declared_concat(a, b);
    assert(before.scope.symbols + (declared_vars(a) + declared_vars(b)) =~= before.scope.symbols
        + declared_vars(a) + declared_vars(b));
    assert(before.scope.arrays + (declared_arrays(a) + declared_arrays(b))
        =~= before.scope.arrays + declared_arrays(a) + declared_arrays(b));
    lemma_counted_join(a, b, before.counters, between.counters, after.counters);
    lemma_includes_more(between.scope.symbols, declared_vars(b));
    lemma_includes_more(between.scope.arrays, declared_arrays(b));
    lemma_closed_widen(
        a,
        between.scope,
        before.counters,
        between.counters,
        before.labels,
        after.scope,
        before.counters,
        after.counters,
    );
    lemma_closed_widen(
        b,
        after.scope,
        between.counters,
        after.counters,
        before.labels,
        after.scope,
        before.counters,
        after.counters,
    );
    lemma_closed_concat(a, b, after.scope, before.counters, after.counters, before.labels);
}

/// What a declaration lowers to is right.
pub proof fn lemma_declaration(tokens: Seq<TokenView>, state: ParseState)
    ensures
        ({
            let found = declaration(tokens, state.at, state.scope.symbols, state.scope.arrays);
            found.result matches Ok(code) ==> stmt_ok(
                state,
                ParseState {
                    at: found.at,
                    scope: Scope { symbols: found.symbols, arrays: found.arrays, ..state.scope },
                    ..state
                },
                code,
            )
        }),
{
    reveal(declaration);
    let found = declaration(tokens, state.at, state.scope.symbols, state.scope.arrays);
    if let Ok(code) = found.result {
        let instr = code[0];
        assert(code =~= seq![instr]);
        lemma_declared_one(instr);
        lemma_counted_plain(instr, state.counters);
        assert(found.symbols.len() > 0 ==> found.symbols[found.symbols.len() - 1]
            == found.symbols.last());
        assert(found.arrays.len() > 0 ==> found.arrays[found.arrays.len() - 1]
            == found.arrays.last());
        lemma_closed_one(
            instr,
            Scope { symbols: found.symbols, arrays: found.arrays, ..state.scope },
            state.counters,
            state.counters,
            state.labels,
        );
        assert(found.symbols =~= state.scope.symbols + declared_vars(code));
        assert(found.arrays =~= state.scope.arrays + declared_arrays(code));
        if declared_once(state.scope.symbols, state.scope.arrays) {
            match instr {
                Instr::Int { var: Operand::Var(name) } => {
                    lemma_declared_once_more(state.scope.symbols, state.scope.arrays, name);
                },
                Instr::Array { name, size } => {
                    lemma_declared_once_more(state.scope.symbols, state.scope.arrays, name);
                },
                _ => {},
            }
        }
    }
}

/// Code without instructions is right for a state that stays as it is.
pub proof fn lemma_stmt_empty(state: ParseState)
    ensures
        stmt_ok(state, state, Seq::empty()),
{
    lemma_counted_empty(state.counters);
    assert(declared_vars(Seq::<Instr>::empty()) =~= Seq::empty());
    assert(declared_arrays(Seq::<Instr>::empty()) =~= Seq::empty());
    assert(state.scope.symbols + Seq::<Seq<char>>::empty() =~= state.scope.symbols);
    assert(state.scope.arrays + Seq::<Seq<char>>::empty() =~= state.scope.arrays);
}

/// The counts and the declarations of two pieces, one after the other.
pub proof fn lemma_concat_facts(a: Seq<Instr>, b: Seq<Instr>)
    ensures
        forall|x: Instr| #[trigger] count(a + b, x) == count(a, x) + count(b, x),
        declared_vars(a + b) == declared_vars(a) + declared_vars(b),
        declared_arrays(a + b) == declared_arrays(a) + declared_arrays(b),
{
    assert forall|x: Instr| #[trigger] count(a + b, x) == count(a, x) + count(b, x) by {
        lemma_count_concat(a, b, x);
    }
    lemma_declared_concat(a, b);
}

/// The counts and the declarations of one instruction that declares
/// nothing.
pub proof fn lemma_single_facts(instr: Instr)
    requires
        !(instr is Int),
        !(instr is Array),
    ensures
        forall|x: Instr| #[trigger]
            count(seq![instr], x) == if instr == x {
                1nat
            } else {
                0nat
            },
        declared_vars(seq![instr]) == Seq::<Seq<char>>::empty(),
        declared_arrays(seq![instr]) == Seq::<Seq<char>>::empty(),
{
    assert forall|x: Instr| #[trigger]
        count(seq![instr], x) == if instr == x {
            1nat
        } else {
            0nat
        } by {
        lemma_count_one(instr, x);
    }
    lemma_declared_one(instr);
}

/// What a loop lowers to is right, if its comparison and its body are.
pub proof fn lemma_loop_ok(
    before: ParseState,
    cond: ExprIr,
    inside: ParseState,
    body: Seq<Instr>,
    after: ParseState,
)
    requires
        expr_ok(
            before.scope,
            before.labels,
            Counters { loops: before.counters.loops + 1, ..before.counters },
            before.counters.temps,
            inside.counters.temps,
            cond,
        ),
        inside.counters == (Counters {
            loops: before.counters.loops + 1,
            temps: inside.counters.temps,
            ..before.counters
        }),
        inside.scope == before.scope,
        inside.labels == before.labels.push(
            (loop_begin(before.counters.loops + 1), loop_end(before.counters.loops + 1)),
        ),
        stmt_ok(inside, after, body),
    ensures
        stmt_ok(
            before,
            ParseState { labels: after.labels.drop_last(), ..after },
            loop_code(before.counters.loops + 1, cond, body),
        ),
{
    let n = before.counters.loops + 1;
    let c0 = before.counters;
    let e1 = Counters { loops: n, ..c0 };
    let c1 = inside.counters;
    let c2 = after.counters;
    let scope = after.scope;
    let outer = before.labels;
    let begin = Instr::Label { name: loop_begin(n) };
    let test = Instr::BranchIfn { cond: cond.operand, target: loop_end(n) };
    let back = Instr::Jmp { target: loop_begin(n) };
    let end = Instr::Label { name: loop_end(n) };
    let lead = seq![begin] + cond.code;
    let tested = lead + seq![test];
    let looped = tested + body;
    let tail = seq![back] + seq![end];
    let all = looped + tail;
    assert(loop_code(n, cond, body) =~= all);
    assert(after.labels.drop_last() =~= before.labels);
    lemma_concat_facts(seq![begin], cond.code);
    lemma_concat_facts(lead, seq![test]);
    lemma_concat_facts(tested, body);
    lemma_concat_facts(seq![back], seq![end]);
    lemma_concat_facts(looped, tail);
    lemma_single_facts(begin);
    lemma_single_facts(test);
    lemma_single_facts(back);
    lemma_single_facts(end);
    // what the code declares
    assert(declared_vars(all) =~= declared_vars(body));
    assert(declared_arrays(all) =~= declared_arrays(body));
    // what the code counts
    assert forall|m: nat| #[trigger]
        count(all, Instr::Int { var: Operand::Temp(m) }) == if c0.temps < m <= c2.temps {
            1nat
        } else {
            0nat
        } by {
        let x = Instr::Int { var: Operand::Temp(m) };
        assert(count(all, x) == count(looped, x) + count(tail, x));
        assert(count(looped, x) == count(tested, x) + count(body, x));
        assert(count(tested, x) == count(lead, x) + count(seq![test], x));
        assert(count(lead, x) == count(seq![begin], x) + count(cond.code, x));
        assert(count(tail, x) == count(seq![back], x) + count(seq![end], x));
    }
    assert forall|name: Seq<char>| #[trigger]
        count(all, Instr::Label { name }) == if fresh_label(name, c0, c2) {
            1nat
        } else {
            0nat
        } by {
        let x = Instr::Label { name };
        assert(count(all, x) == count(looped, x) + count(tail, x));
        assert(count(looped, x) == count(tested, x) + count(body, x));
        assert(count(tested, x) == count(lead, x) + count(seq![test], x));
        assert(count(lead, x) == count(seq![begin], x) + count(cond.code, x));
        assert(count(tail, x) == count(seq![back], x) + count(seq![end], x));
        lemma_fresh_split(name, c0, e1, c2);
        lemma_fresh_loop(name, c0, e1);
        lemma_fresh_split(name, e1, c1, c2);
        lemma_fresh_none(name, e1, c1);
        lemma_fresh_none(name, with_temps(e1, c0.temps), c1);
    }
    // what the code refers to
    assert forall|name: Seq<char>| name == loop_begin(n) || name == loop_end(n) implies fresh_label(
        name,
        c0,
        c2,
    ) by {
        lemma_fresh_loop(name, c0, e1);
        lemma_fresh_widen(name, c0, e1, c0, c2);
    }
    lemma_includes_more(before.scope.symbols, declared_vars(body));
    lemma_includes_more(before.scope.arrays, declared_arrays(body));
    lemma_closed_widen(
        cond.code,
        before.scope,
        with_temps(e1, c0.temps),
        c1,
        outer,
        scope,
        c0,
        c2,
    );
    lemma_closed_widen(body, scope, c1, c2, inside.labels, scope, c0, c2);
    lemma_closed_leave(body, scope, c0, c2, inside.labels, outer);
    lemma_closed_one(begin, scope, c0, c2, outer);
    lemma_closed_one(test, scope, c0, c2, outer);
    lemma_closed_one(back, scope, c0, c2, outer);
    lemma_closed_one(end, scope, c0, c2, outer);
    lemma_closed_concat(seq![begin], cond.code, scope, c0, c2, outer);
    lemma_closed_concat(lead, seq![test], scope, c0, c2, outer);
    lemma_closed_concat(tested, body, scope, c0, c2, outer);
    lemma_closed_concat(seq![back], seq![end], scope, c0, c2, outer);
    lemma_closed_concat(looped, tail, scope, c0, c2, outer);
}

/// What a conditional lowers to is right, if its comparison and its
/// branches are.
pub proof fn lemma_branch_ok(
    before: ParseState,
    cond: ExprIr,
    inside: ParseState,
    first: Seq<Instr>,
    between: ParseState,
    second: Seq<Instr>,
    after: ParseState,
)
    requires
        expr_ok(
            before.scope,
            before.labels,
            Counters { branches: before.counters.branches + 1, ..before.counters },
            before.counters.temps,
            inside.counters.temps,
            cond,
        ),
        inside.counters == (Counters {
            branches: before.counters.branches + 1,
            temps: inside.counters.temps,
            ..before.counters
        }),
        inside.scope == before.scope,
        inside.labels == before.labels,
        stmt_ok(inside, between, first),
        stmt_ok(between, after, second),
    ensures
        stmt_ok(before, after, branch_code(before.counters.branches + 1, cond, first, second)),
{
    let n = before.counters.branches + 1;
    let c0 = before.counters;
    let e1 = Counters { branches: n, ..c0 };
    let c1 = inside.counters;
    let c2 = between.counters;
    let c3 = after.counters;
    let scope = after.scope;
    let outer = before.labels;
    let test = Instr::BranchIf { cond: cond.operand, target: branch_then(n) };
    let skip = Instr::Jmp { target: branch_else(n) };
    let taken = Instr::Label { name: branch_then(n) };
    let leave = Instr::Jmp { target: branch_end(n) };
    let other = Instr::Label { name: branch_else(n) };
    let end = Instr::Label { name: branch_end(n) };
    let head = seq![test] + seq![skip] + seq![taken];
    let mid = seq![leave] + seq![other];
    let q1 = cond.code + head;
    let q2 = q1 + first;
    let q3 = q2 + mid;
    let q4 = q3 + second;
    let all = q4 + seq![end];
    assert(head =~= seq![test, skip, taken]);
    assert(mid =~= seq![leave, other]);
    assert(branch_code(n, cond, first, second) =~= all);
    lemma_concat_facts(seq![test], seq![skip]);
    lemma_concat_facts(seq![test] + seq![skip], seq![taken]);
    lemma_concat_facts(seq![leave], seq![other]);
    lemma_concat_facts(cond.code, head);
    lemma_concat_facts(q1, first);
    lemma_concat_facts(q2, mid);
    lemma_concat_facts(q3, second);
    lemma_concat_facts(q4, seq![end]);
    lemma_single_facts(test);
    lemma_single_facts(skip);
    lemma_single_facts(taken);
    lemma_single_facts(leave);
    lemma_single_facts(other);
    lemma_single_facts(end);
    // what the code declares
    assert(declared_vars(all) =~= declared_vars(first) + declared_vars(second));
    assert(declared_arrays(all) =~= declared_arrays(first) + declared_arrays(second));
    assert(before.scope.symbols + (declared_vars(first) + declared_vars(second))
        =~= before.scope.symbols + declared_vars(first) + declared_vars(second));
    assert(before.scope.arrays + (declared_arrays(first) + declared_arrays(second))
        =~= before.scope.arrays + declared_arrays(first) + declared_arrays(second));
    // what the code counts
    assert forall|m: nat| #[trigger]
        count(all, Instr::Int { var: Operand::Temp(m) }) == if c0.temps < m <= c3.temps {
            1nat
        } else {
            0nat
        } by {
        let x = Instr::Int { var: Operand::Temp(m) };
        assert(count(all, x) == count(q4, x) + count(seq![end], x));
        assert(count(q4, x) == count(q3, x) + count(second, x));
        assert(count(q3, x) == count(q2, x) + count(mid, x));
        assert(count(q2, x) == count(q1, x) + count(first, x));
        assert(count(q1, x) == count(cond.code, x) + count(head, x));
        assert(count(head, x) == count(seq![test] + seq![skip], x) + count(seq![taken], x));
        assert(count(seq![test] + seq![skip], x) == count(seq![test], x) + count(seq![skip], x));
        assert(count(mid, x) == count(seq![leave], x) + count(seq![other], x));
    }
    assert forall|name: Seq<char>| #[trigger]
        count(all, Instr::Label { name }) == if fresh_label(name, c0, c3) {
            1nat
        } else {
            0nat
        } by {
        let x = Instr::Label { name };
        assert(count(all, x) == count(q4, x) + count(seq![end], x));
        assert(count(q4, x) == count(q3, x) + count(second, x));
        assert(count(q3, x) == count(q2, x) + count(mid, x));
        assert(count(q2, x) == count(q1, x) + count(first, x));
        assert(count(q1, x) == count(cond.code, x) + count(head, x));
        assert(count(head, x) == count(seq![test] + seq![skip], x) + count(seq![taken], x));
        assert(count(seq![test] + seq![skip], x) == count(seq![test], x) + count(seq![skip], x));
        assert(count(mid, x) == count(seq![leave], x) + count(seq![other], x));
        lemma_fresh_split(name, c0, e1, c3);
        lemma_fresh_branch(name, c0, e1);
        lemma_fresh_split(name, e1, c1, c3);
        lemma_fresh_none(name, e1, c1);
        lemma_fresh_none(name, with_temps(e1, c0.temps), c1);
        lemma_fresh_split(name, c1, c2, c3);
    }
    // what the code refers to
    assert forall|name: Seq<char>|
        name == branch_then(n) || name == branch_else(n) || name == branch_end(
            n,
        ) implies fresh_label(name, c0, c3) by {
        lemma_fresh_branch(name, c0, e1);
        lemma_fresh_widen(name, c0, e1, c0, c3);
    }
    lemma_includes_more(before.scope.symbols, declared_vars(first));
    lemma_includes_more(before.scope.arrays, declared_arrays(first));
    lemma_includes_more(between.scope.symbols, declared_vars(second));
    lemma_includes_more(between.scope.arrays, declared_arrays(second));
    lemma_closed_widen(
        cond.code,
        before.scope,
        with_temps(e1, c0.temps),
        c1,
        outer,
        scope,
        c0,
        c3,
    );
    lemma_closed_widen(first, between.scope, c1, c2, outer, scope, c0, c3);
    lemma_closed_widen(second, scope, c2, c3, outer, scope, c0, c3);
    lemma_closed_one(test, scope, c0, c3, outer);
    lemma_closed_one(skip, scope, c0, c3, outer);
    lemma_closed_one(taken, scope, c0, c3, outer);
    lemma_closed_one(leave, scope, c0, c3, outer);
    lemma_closed_one(other, scope, c0, c3, outer);
    lemma_closed_one(end, scope, c0, c3, outer);
    lemma_closed_concat(seq![test], seq![skip], scope, c0, c3, outer);
    lemma_closed_concat(seq![test] + seq![skip], seq![taken], scope, c0, c3, outer);
    lemma_closed_concat(seq![leave], seq![other], scope, c0, c3, outer);
    lemma_closed_concat(cond.code, head, scope, c0, c3, outer);
    lemma_closed_concat(q1, first, scope, c0, c3, outer);
    lemma_closed_concat(q2, mid, scope, c0, c3, outer);
    lemma_closed_concat(q3, second, scope, c0, c3, outer);
    lemma_closed_concat(q4, seq![end], scope, c0, c3, outer);
}

/// What statements in braces lower to is right.
pub proof fn lemma_block(
    tokens: Seq<TokenView>,
    state: ParseState,
    open_message: Seq<char>,
    close_message: Seq<char>,
)
    ensures
        ({
            let all = block(tokens, state, open_message, close_message);
            all.result matches Ok(code) ==> stmt_ok(state, all.state, code)
        }),
    decreases tokens.len() - state.at, 3nat,
{
    reveal(block);
    reveal(statements);
    let opening = expect(tokens, state, TokenView::LeftCurly, open_message);
    if opening.result is Ok {
        lemma_stmt_empty(opening.state);
        lemma_statements(tokens, opening.state, Seq::empty(), opening.state);
    }
}

/// What a loop lowers to is right.
pub proof fn lemma_while_statement(tokens: Seq<TokenView>, state: ParseState)
    ensures
        ({
            let all = while_statement(tokens, state);
            &&& all.result matches Ok(Some(code)) ==> stmt_ok(state, all.state, code)
            &&& !(all.result matches Ok(None))
        }),
    decreases tokens.len() - state.at, 0nat,
{
    reveal(while_statement);
    reveal(block);
    let n = state.counters.loops + 1;
    let entered = ParseState {
        at: state.at + 1,
        counters: Counters { loops: n, ..state.counters },
        labels: state.labels.push((loop_begin(n), loop_end(n))),
        ..state
    };
    lemma_bool_operation(
        tokens,
        state.scope,
        state.labels,
        entered.counters,
        entered.at,
        state.counters.temps,
    );
    let cond = condition_in(tokens, entered);
    if let Ok(c) = cond.result {
        if state.at < cond.state.at <= tokens.len() {
            lemma_block(tokens, cond.state, "expected '{'"@, "expected '}' after while"@);
            let body = block(tokens, cond.state, "expected '{'"@, "expected '}' after while"@);
            if let Ok(code) = body.result {
                lemma_loop_ok(state, c, cond.state, code, body.state);
            }
        }
    }
}

/// What a conditional lowers to is right.
pub proof fn lemma_if_statement(tokens: Seq<TokenView>, state: ParseState)
    ensures
        ({
            let all = if_statement(tokens, state);
            &&& all.result matches Ok(Some(code)) ==> stmt_ok(state, all.state, code)
            &&& !(all.result matches Ok(None))
        }),
    decreases tokens.len() - state.at, 0nat,
{
    reveal(if_statement);
    reveal(block);
    let n = state.counters.branches + 1;
    let entered = ParseState {
        at: state.at + 1,
        counters: Counters { branches: n, ..state.counters },
        ..state
    };
    lemma_bool_operation(
        tokens,
        state.scope,
        state.labels,
        entered.counters,
        entered.at,
        state.counters.temps,
    );
    let cond = condition_in(tokens, entered);
    if let Ok(c) = cond.result {
        if state.at < cond.state.at <= tokens.len() {
            lemma_block(tokens, cond.state, "expected '{'"@, "expected '}' after if"@);
            let first = block(tokens, cond.state, "expected '{'"@, "expected '}' after if"@);
            if let Ok(code) = first.result {
                match token_at(tokens, first.state.at) {
                    Some(TokenView::Else) => {
                        if state.at < first.state.at <= tokens.len() {
                            lemma_block(
                                tokens,
                                first.state.moved(1),
                                "expected '{'"@,
                                "expected '}' after else"@,
                            );
                            let second = block(
                                tokens,
                                first.state.moved(1),
                                "expected '{'"@,
                                "expected '}' after else"@,
                            );
                            if let Ok(other) = second.result {
                                lemma_branch_ok(
                                    state,
                                    c,
                                    cond.state,
                                    code,
                                    first.state,
                                    other,
                                    second.state,
                                );
                            }
                        }
                    },
                    _ => {
                        lemma_stmt_empty(first.state);
                        lemma_branch_ok(
                            state,
                            c,
                            cond.state,
                            code,
                            first.state,
                            Seq::empty(),
                            first.state,
                        );
                    },
                }
            }
        }
    }
}

/// What a statement lowers to is right. Where there is no statement the
/// state stays as it is.
pub proof fn lemma_statement(tokens: Seq<TokenView>, state: ParseState)
    ensures
        ({
            let all = statement(tokens, state);
            &&& all.result matches Ok(Some(code)) ==> stmt_ok(state, all.state, code)
            &&& all.result matches Ok(None) ==> all.state == state
        }),
    decreases tokens.len() - state.at, 1nat,
{
    reveal(statement);
    reveal(while_statement);
    reveal(if_statement);
    let scope = state.scope;
    let labels = state.labels;
    let base = state.counters;
    let temps = state.counters.temps;
    let all = statement(tokens, state);
    match token_at(tokens, state.at) {
        Some(TokenView::Int) => {
            lemma_declaration(tokens, state);
        },
        Some(TokenView::Ident(name)) => {
            lemma_assignment(tokens, scope, labels, base, state.at + 1, temps, name);
            if let Ok(Some(code)) = all.result {
                lemma_stmt_quiet(state, all.state, code);
            }
        },
        Some(TokenView::Return) => {
            lemma_return_statement(tokens, scope, labels, base, state.at + 1, temps);
            if let Ok(Some(code)) = all.result {
                lemma_stmt_quiet(state, all.state, code);
            }
        },
        Some(TokenView::Print) => {
            lemma_transfer_statement(tokens, scope, labels, base, state.at + 1, temps, false);
            if let Ok(Some(code)) = all.result {
                lemma_stmt_quiet(state, all.state, code);
            }
        },
        Some(TokenView::Read) => {
            lemma_transfer_statement(tokens, scope, labels, base, state.at + 1, temps, true);
            if let Ok(Some(code)) = all.result {
                lemma_stmt_quiet(state, all.state, code);
            }
        },
        Some(TokenView::Break) => {
            lemma_jump_statement(tokens, scope, state.at + 1, labels, false, base);
            if let Ok(Some(code)) = all.result {
                lemma_stmt_quiet(state, all.state, code);
            }
        },
        Some(TokenView::Continue) => {
            lemma_jump_statement(tokens, scope, state.at + 1, labels, true, base);
            if let Ok(Some(code)) = all.result {
                lemma_stmt_quiet(state, all.state, code);
            }
        },
        Some(TokenView::While) => {
            lemma_while_statement(tokens, state);
        },
        Some(TokenView::If) => {
            lemma_if_statement(tokens, state);
        },
        _ => {},
    }
}

/// What statements lower to is right, after code that is.
pub proof fn lemma_statements(
    tokens: Seq<TokenView>,
    state: ParseState,
    code: Seq<Instr>,
    start: ParseState,
)
    requires
        stmt_ok(start, state, code),
    ensures
        ({
            let all = statements(tokens, state, code);
            all.result matches Ok(found) ==> stmt_ok(start, all.state, found)
        }),
    decreases tokens.len() - state.at, 2nat,
{
    reveal(statements);
    reveal(statement);
    lemma_statement(tokens, state);
    let one = statement(tokens, state);
    if let Ok(Some(more)) = one.result {
        if state.at < one.state.at <= tokens.len() {
            lemma_stmt_join(start, state, one.state, code, more);
            lemma_statements(tokens, one.state, code + more, start);
        }
    }
}

/// The label that an instruction jumps to, if it is a jump.
pub open spec fn jump_target(instr: Instr) -> Option<Seq<char>> {
    match instr {
        Instr::Jmp { target } => Some(target),
        Instr::BranchIf { cond, target } => Some(target),
        Instr::BranchIfn { cond, target } => Some(target),
        _ => None,
    }
}

/// Whether every jump of a piece of code goes to a label made between `lo`
/// and `hi`.
pub open spec fn jumps_land(code: Seq<Instr>, lo: Counters, hi: Counters) -> bool {
    forall|k: int|
        0 <= k < code.len() ==> (jump_target(#[trigger] code[k]) matches Some(target)
            ==> fresh_label(target, lo, hi))
}

/// Whether an operand of an instruction of a function is a number, a
/// parameter, or a variable or a temporary that the function declares.
pub open spec fn known(operand: Operand, params: Seq<Seq<char>>, unit: Seq<Instr>) -> bool {
    match operand {
        Operand::Lit(_) => true,
        Operand::Var(name) => params.contains(name) || unit.contains(
            Instr::Int { var: Operand::Var(name) },
        ),
        Operand::Temp(n) => unit.contains(Instr::Int { var: Operand::Temp(n) }),
    }
}

/// Whether the names that an instruction of a function uses are the
/// function's own: its operands are known, its array is declared in the
/// function, and the function that it calls is one of `functions`.
pub open spec fn instr_scoped(
    instr: Instr,
    params: Seq<Seq<char>>,
    unit: Seq<Instr>,
    functions: Seq<Seq<char>>,
) -> bool {
    match instr {
        Instr::Mov { dst, src } => known(dst, params, unit) && known(src, params, unit),
        Instr::Store { array, index, src } => declares_array(unit, array) && known(
            index,
            params,
            unit,
        ) && known(src, params, unit),
        Instr::Load { dst, array, index } => declares_array(unit, array) && known(
            dst,
            params,
            unit,
        ) && known(index, params, unit),
        Instr::Binary { op, dst, left, right } => known(dst, params, unit) && known(
            left,
            params,
            unit,
        ) && known(right, params, unit),
        Instr::BranchIf { cond, target } => known(cond, params, unit),
        Instr::BranchIfn { cond, target } => known(cond, params, unit),
        Instr::Call { dst, func, args } => known(dst, params, unit) && functions.contains(func)
            && forall|j: int| 0 <= j < args.len() ==> known(#[trigger] args[j], params, unit),
        Instr::Ret { value } => known(value, params, unit),
        Instr::Out { value } => known(value, params, unit),
        Instr::Input { value } => known(value, params, unit),
        _ => true,
    }
}

/// Whether a piece of code is one function, from its header to its end, in
/// which every instruction uses only the function's own names, and which
/// gives no name twice to its parameters, variables and arrays.
pub open spec fn function_scoped(unit: Seq<Instr>, functions: Seq<Seq<char>>) -> bool {
    &&& unit.len() >= 2
    &&& unit[0] is Func
    &&& unit.last() == Instr::EndFunc
    &&& declared_once(unit[0]->params + declared_vars(unit), declared_arrays(unit))
    &&& forall|k: int|
        0 <= k < unit.len() ==> instr_scoped(#[trigger] unit[k], unit[0]->params, unit, functions)
}

/// Whether the instruction at `i` lies in a function of the code in which
/// every instruction uses only the function's own names.
pub open spec fn in_function(code: Seq<Instr>, i: int, functions: Seq<Seq<char>>) -> bool {
    exists|from: int, to: int|
        0 <= from <= i < to <= code.len() && function_scoped(
            #[trigger] code.subrange(from, to),
            functions,
        )
}

/// Whether every name that a program uses as an operand is, in the
/// function where it is used, a parameter, a declared variable or array, or
/// a declared temporary, and every function that it calls is one of
/// `functions`.
pub open spec fn scoped(code: Seq<Instr>, functions: Seq<Seq<char>>) -> bool {
    forall|i: int| 0 <= i < code.len() ==> in_function(code, i, functions)
}

/// Whether the functions of a table are those that a program defines, no
/// two of one name, and `main` among them.
pub open spec fn defined_once(code: Seq<Instr>, functions: Seq<Seq<char>>) -> bool {
    &&& functions == defined_functions(code)
    &&& functions.no_duplicates()
    &&& functions.contains("main"@)
}

/// Whether no temporary is declared twice and no label defined twice.
pub open spec fn unique(code: Seq<Instr>) -> bool {
    &&& forall|n: nat| #[trigger] count(code, Instr::Int { var: Operand::Temp(n) }) <= 1
    &&& forall|name: Seq<char>| #[trigger] count(code, Instr::Label { name }) <= 1
}

/// Whether the target of every jump is defined as a label exactly once.
pub open spec fn balanced(code: Seq<Instr>) -> bool {
    forall|k: int|
        0 <= k < code.len() ==> (jump_target(#[trigger] code[k]) matches Some(target) ==> count(
            code,
            Instr::Label { name: target },
        ) == 1)
}

proof fn lemma_operand_known(
    operand: Operand,
    params: Seq<Seq<char>>,
    body: Seq<Instr>,
    unit: Seq<Instr>,
    lo: Counters,
    hi: Counters,
)
    requires
        operand_ok(operand, params + declared_vars(body), lo, hi),
        counted(body, lo, hi),
        forall|x: Instr| body.contains(x) ==> unit.contains(x),
    ensures
        known(operand, params, unit),
{
    match operand {
        Operand::Lit(_) => {},
        Operand::Var(name) => {
            let all = params + declared_vars(body);
            let k = choose|k: int| 0 <= k < all.len() && all[k] == name;
            if k < params.len() {
                assert(params[k] == name);
            } else {
                assert(declared_vars(body)[k - params.len()] == name);
                lemma_declared_contains(body, name);
            }
        },
        Operand::Temp(n) => {
            let wanted = Instr::Int { var: Operand::Temp(n) };
            assert(count(body, wanted) == 1);
            lemma_count_contains(body, wanted);
        },
    }
}

proof fn lemma_instr_scoped(
    instr: Instr,
    params: Seq<Seq<char>>,
    body: Seq<Instr>,
    unit: Seq<Instr>,
    functions: Seq<Seq<char>>,
    lo: Counters,
    hi: Counters,
)
    requires
        instr_ok(
            instr,
            Scope {
                symbols: params + declared_vars(body),
                arrays: declared_arrays(body),
                functions,
            },
            lo,
            hi,
            Seq::empty(),
        ),
        counted(body, lo, hi),
        forall|x: Instr| body.contains(x) ==> unit.contains(x),
        forall|array: Seq<char>| declares_array(body, array) ==> declares_array(unit, array),
    ensures
        instr_scoped(instr, params, unit, functions),
{
    let symbols = params + declared_vars(body);
    assert forall|operand: Operand| operand_ok(operand, symbols, lo, hi) implies known(
        operand,
        params,
        unit,
    ) by {
        lemma_operand_known(operand, params, body, unit, lo, hi);
    }
    assert forall|array: Seq<char>| declared_arrays(body).contains(array) implies declares_array(
        unit,
        array,
    ) by {
        lemma_declared_contains(body, array);
    }
    match instr {
        Instr::Call { dst, func, args } => {
            assert forall|j: int| 0 <= j < args.len() implies known(
                #[trigger] args[j],
                params,
                unit,
            ) by {
                assert(operand_ok(args[j], symbols, lo, hi));
            }
        },
        _ => {},
    }
}

/// What a function's code is made of is right, if its body is.
pub proof fn lemma_unit(
    name: Seq<char>,
    params: Seq<Seq<char>>,
    body: Seq<Instr>,
    functions: Seq<Seq<char>>,
    lo: Counters,
    hi: Counters,
)
    requires
        le(lo, hi),
        counted(body, lo, hi),
        closed(
            body,
            Scope {
                symbols: params + declared_vars(body),
                arrays: declared_arrays(body),
                functions,
            },
            lo,
            hi,
            Seq::empty(),
        ),
        declared_once(params + declared_vars(body), declared_arrays(body)),
    ensures
        counted(function_code(name, params, body), lo, hi),
        jumps_land(function_code(name, params, body), lo, hi),
        function_scoped(function_code(name, params, body), functions),
        defined_functions(function_code(name, params, body)) == seq![name],
{
    let head = Instr::Func { name, params };
    let unit = function_code(name, params, body);
    let scope = Scope {
        symbols: params + declared_vars(body),
        arrays: declared_arrays(body),
        functions,
    };
    assert(unit.len() == body.len() + 2);
    assert(unit[0] == head);
    assert(unit.last() == Instr::EndFunc);
    lemma_declared_concat(seq![head], body);
    lemma_declared_concat(seq![head] + body, seq![Instr::EndFunc]);
    lemma_declared_one(head);
    lemma_declared_one(Instr::EndFunc);
    lemma_defined_concat(seq![head], body);
    lemma_defined_concat(seq![head] + body, seq![Instr::EndFunc]);
    lemma_defined_one(head);
    lemma_defined_one(Instr::EndFunc);
    lemma_defined_none(body, scope, lo, hi, Seq::empty());
    assert(defined_functions(unit) =~= seq![name]);
    assert(declared_vars(unit) =~= declared_vars(body));
    assert(declared_arrays(unit) =~= declared_arrays(body));
    assert forall|k: int| 0 <= k < body.len() implies unit[k + 1] == body[k] by {}
    lemma_counted_plain(head, lo);
    lemma_counted_join(seq![head], body, lo, lo, hi);
    lemma_counted_plain(Instr::EndFunc, hi);
    lemma_counted_join(seq![head] + body, seq![Instr::EndFunc], lo, hi, hi);
    assert forall|x: Instr| body.contains(x) implies unit.contains(x) by {
        let k = choose|k: int| 0 <= k < body.len() && body[k] == x;
        assert(unit[k + 1] == x);
    }
    assert forall|array: Seq<char>| declares_array(body, array) implies declares_array(
        unit,
        array,
    ) by {
        let k = choose|k: int| 0 <= k < body.len() && is_array_of(#[trigger] body[k], array);
        assert(is_array_of(unit[k + 1], array));
    }
    assert forall|k: int| 0 <= k < unit.len() implies instr_scoped(
        #[trigger] unit[k],
        params,
        unit,
        functions,
    ) by {
        if 0 < k < unit.len() - 1 {
            assert(unit[k] == body[k - 1]);
            assert(instr_ok(body[k - 1], scope, lo, hi, Seq::empty()));
            lemma_instr_scoped(body[k - 1], params, body, unit, functions, lo, hi);
        }
    }
    assert forall|k: int| 0 <= k < unit.len() implies (jump_target(
        #[trigger] unit[k],
    ) matches Some(target) ==> fresh_label(target, lo, hi)) by {
        if 0 < k < unit.len() - 1 {
            assert(unit[k] == body[k - 1]);
            assert(instr_ok(body[k - 1], scope, lo, hi, Seq::empty()));
        }
    }
}

/// The parameters of a function have different names.
pub proof fn lemma_parameters(tokens: Seq<TokenView>, at: int, params: Seq<Seq<char>>)
    requires
        params.no_duplicates(),
    ensures
        parameters(tokens, at, params).result matches Ok(all) ==> all.no_duplicates(),
    decreases tokens.len() - at,
{
    reveal(parameters);
    match token_at(tokens, at) {
        Some(TokenView::Int) => match token_at(tokens, at + 1) {
            Some(TokenView::Ident(name)) => {
                if !params.contains(name) {
                    lemma_declared_once_more(params, Seq::empty(), name);
                    match token_at(tokens, at + 2) {
                        Some(TokenView::Comma) => {
                            lemma_parameters(tokens, at + 3, params.push(name));
                        },
                        _ => {},
                    }
                }
            },
            _ => {},
        },
        _ => {},
    }
}

/// What a function lowers to is right: it declares each temporary and
/// defines each label made on the way once, its jumps go to those labels,
/// and its instructions use only its own names.
pub proof fn lemma_function(
    tokens: Seq<TokenView>,
    at: int,
    functions: Seq<Seq<char>>,
    counters: Counters,
)
    ensures
        ({
            let unit = function(tokens, at, functions, counters);
            unit.result matches Ok(Some(code)) ==> {
                &&& le(counters, unit.counters)
                &&& includes(functions, unit.functions)
                &&& unit.functions == functions + defined_functions(code)
                &&& functions.no_duplicates() ==> unit.functions.no_duplicates()
                &&& counted(code, counters, unit.counters)
                &&& jumps_land(code, counters, unit.counters)
                &&& function_scoped(code, unit.functions)
            }
        }),
{
    reveal(function);
    let unit = function(tokens, at, functions, counters);
    if let Ok(Some(code)) = unit.result {
        let name = token_at(tokens, at + 1)->0->Ident_0;
        let known = functions.push(name);
        let header = parameters(tokens, at + 3, Seq::empty());
        let params = header.result->Ok_0;
        let start = ParseState {
            at: header.at,
            counters,
            scope: Scope { symbols: params, arrays: Seq::empty(), functions: known },
            labels: Seq::empty(),
        };
        lemma_block(tokens, start, "expected '{' for function"@, "expected '}' after function"@);
        let body = block(
            tokens,
            start,
            "expected '{' for function"@,
            "expected '}' after function"@,
        );
        let b = body.result->Ok_0;
        lemma_parameters(tokens, at + 3, Seq::empty());
        assert(Seq::<Seq<char>>::empty() + declared_arrays(b) =~= declared_arrays(b));
        assert(body.state.scope == (Scope {
            symbols: params + declared_vars(b),
            arrays: declared_arrays(b),
            functions: known,
        }));
        lemma_unit(name, params, b, known, counters, body.state.counters);
        assert(functions.push(name) =~= functions + seq![name]);
        lemma_includes_more(functions, seq![name]);
        if functions.no_duplicates() {
            lemma_declared_once_more(functions, Seq::empty(), name);
        }
    }
}

/// Whether a program's code is right for counters that go from `lo` to
/// `hi`.
pub open spec fn program_ok(
    code: Seq<Instr>,
    functions: Seq<Seq<char>>,
    lo: Counters,
    hi: Counters,
) -> bool {
    &&& le(lo, hi)
    &&& counted(code, lo, hi)
    &&& jumps_land(code, lo, hi)
    &&& scoped(code, functions)
    &&& functions == defined_functions(code)
    &&& functions.no_duplicates()
}

proof fn lemma_scoped_more(unit: Seq<Instr>, functions: Seq<Seq<char>>, more: Seq<Seq<char>>)
    requires
        function_scoped(unit, functions),
        includes(functions, more),
    ensures
        function_scoped(unit, more),
{
    assert forall|k: int| 0 <= k < unit.len() implies instr_scoped(
        #[trigger] unit[k],
        unit[0]->params,
        unit,
        more,
    ) by {
        assert(instr_scoped(unit[k], unit[0]->params, unit, functions));
    }
}

/// One more function after the functions so far.
pub proof fn lemma_program_more(
    code: Seq<Instr>,
    unit: Seq<Instr>,
    functions: Seq<Seq<char>>,
    more: Seq<Seq<char>>,
    lo: Counters,
    mid: Counters,
    hi: Counters,
)
    requires
        program_ok(code, functions, lo, mid),
        le(mid, hi),
        includes(functions, more),
        counted(unit, mid, hi),
        jumps_land(unit, mid, hi),
        function_scoped(unit, more),
        more == functions + defined_functions(unit),
        more.no_duplicates(),
    ensures
        program_ok(code + unit, more, lo, hi),
{
    let all = code + unit;
    lemma_defined_concat(code, unit);
    lemma_counted_join(code, unit, lo, mid, hi);
    assert forall|k: int| 0 <= k < all.len() implies (jump_target(
        #[trigger] all[k],
    ) matches Some(target) ==> fresh_label(target, lo, hi)) by {
        if let Some(target) = jump_target(all[k]) {
            if k < code.len() {
                assert(all[k] == code[k]);
                lemma_fresh_widen(target, lo, mid, lo, hi);
            } else {
                assert(all[k] == unit[k - code.len()]);
                lemma_fresh_widen(target, mid, hi, lo, hi);
            }
        }
    }
    assert forall|i: int| 0 <= i < all.len() implies in_function(all, i, more) by {
        if i < code.len() {
            assert(in_function(code, i, functions));
            let (from, to) = choose|from: int, to: int|
                0 <= from <= i < to <= code.len() && function_scoped(
                    #[trigger] code.subrange(from, to),
                    functions,
                );
            assert(all.subrange(from, to) =~= code.subrange(from, to));
            lemma_scoped_more(code.subrange(from, to), functions, more);
        } else {
            assert(all.subrange(code.len() as int, all.len() as int) =~= unit);
        }
    }
}

/// What functions lower to is right, after code that is.
pub proof fn lemma_functions_from(
    tokens: Seq<TokenView>,
    at: int,
    functions: Seq<Seq<char>>,
    counters: Counters,
    code: Seq<Instr>,
    lo: Counters,
)
    requires
        program_ok(code, functions, lo, counters),
    ensures
        ({
            let all = functions_from(tokens, at, functions, counters, code);
            all.result matches Ok(Some(found)) ==> program_ok(
                found,
                all.functions,
                lo,
                all.counters,
            )
        }),
    decreases tokens.len() - at,
{
    reveal(functions_from);
    reveal(function);
    lemma_function(tokens, at, functions, counters);
    let one = function(tokens, at, functions, counters);
    match one.result {
        Ok(Some(more)) => {
            if at < one.at <= tokens.len() {
                lemma_program_more(
                    code,
                    more,
                    functions,
                    one.functions,
                    lo,
                    counters,
                    one.counters,
                );
                lemma_functions_from(
                    tokens,
                    one.at,
                    one.functions,
                    one.counters,
                    code + more,
                    lo,
                );
            }
        },
        _ => {},
    }
}

/// What a program lowers to is right: nothing is declared or defined
/// twice, every jump has its label, and every name is used in its scope.
pub proof fn lemma_program(tokens: Seq<TokenView>, at: int)
    ensures
        ({
            let all = program(tokens, at);
            all.result matches Ok(code) ==> unique(code) && balanced(code) && scoped(
                code,
                all.functions,
            ) && defined_once(code, all.functions)
        }),
{
    reveal(program);
    let zero = Counters { temps: 0, loops: 0, branches: 0 };
    lemma_counted_empty(zero);
    assert(defined_functions(Seq::<Instr>::empty()) =~= Seq::empty());
    lemma_functions_from(tokens, at, Seq::empty(), zero, Seq::empty(), zero);
}

/// Every temporary and every label that the parser makes in one run is
/// made once: the code of a program declares no temporary twice and
/// defines no label twice. (Temporaries and labels of different numbers
/// have different names: `lemma_temp_names_differ`,
/// `lemma_label_names_differ`.)
pub proof fn lemma_fresh_names_unique(tokens: Seq<TokenView>, at: int)
    ensures
        program(tokens, at).result matches Ok(code) ==> unique(code),
{
    lemma_program(tokens, at);
}

/// The labels of a program are balanced: for every jump and every branch,
/// the label that it goes to is defined exactly once in the program.
pub proof fn lemma_labels_balanced(tokens: Seq<TokenView>, at: int)
    ensures
        program(tokens, at).result matches Ok(code) ==> balanced(code),
{
    lemma_program(tokens, at);
}

/// The names of a program are used in their scope: every instruction lies
/// in a function, and each name that it uses as an operand is a parameter
/// of that function, a variable, an array or a temporary that the function
/// declares, or, after `%call`, a function of the program. No function
/// gives a name twice to its parameters, variables and arrays.
pub proof fn lemma_names_scoped(tokens: Seq<TokenView>, at: int)
    ensures
        program(tokens, at).result matches Ok(code) ==> scoped(
            code,
            program(tokens, at).functions,
        ),
{
    lemma_program(tokens, at);
}

/// The functions of a program have different names, and one of them is
/// `main`.
pub proof fn lemma_functions_defined_once(tokens: Seq<TokenView>, at: int)
    ensures
        program(tokens, at).result matches Ok(code) ==> defined_once(
            code,
            program(tokens, at).functions,
        ),
{
    lemma_program(tokens, at);
}

} // verus!
