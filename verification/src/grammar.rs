//! The grammar of the source language and its lowering, as functions from
//! tokens to instructions: what the parser is specified to compute.

use crate::ir::{
    branch_else, branch_end, branch_then, call_line, func_line, group_render, indexed, line1,
    line2, line3, loop_begin, loop_end, opcode, render, render_instr, render_operand,
    render_operands, temp_name, BinaryOp, Instr, Operand,
};
use crate::token::TokenView;
use vstd::prelude::*;

verus! {

/// The names that a function body can refer to.
pub ghost struct Scope {
    /// The scalar variables: the parameters and the declared integers.
    pub symbols: Seq<Seq<char>>,
    /// The declared arrays.
    pub arrays: Seq<Seq<char>>,
    /// The functions defined so far, the current one included.
    pub functions: Seq<Seq<char>>,
}

/// How many names of each kind have been made.
pub ghost struct Counters {
    pub temps: nat,
    pub loops: nat,
    pub branches: nat,
}

/// The code that computes an expression, and the operand that holds its
/// value once the code has run.
pub ghost struct ExprIr {
    pub code: Seq<Instr>,
    pub operand: Operand,
}

/// Where the parser stands after an expression, and what it found.
pub ghost struct Step<T> {
    pub at: int,
    pub temps: nat,
    pub result: Result<T, Seq<char>>,
}

/// Everything that parsing a statement reads and changes.
pub ghost struct ParseState {
    pub at: int,
    pub counters: Counters,
    pub scope: Scope,
    /// The labels of the enclosing loops, the innermost last.
    pub labels: Seq<(Seq<char>, Seq<char>)>,
}

/// The state after a statement, and what the parser found.
pub ghost struct Outcome<T> {
    pub state: ParseState,
    pub result: Result<T, Seq<char>>,
}

/// The state after a function, and what the parser found.
pub ghost struct Unit {
    pub at: int,
    pub counters: Counters,
    pub functions: Seq<Seq<char>>,
    pub result: Result<Option<Seq<Instr>>, Seq<char>>,
}

/// The state after a program, and what the parser found.
pub ghost struct Program {
    pub at: int,
    /// The names of the functions that were defined.
    pub functions: Seq<Seq<char>>,
    pub result: Result<Seq<Instr>, Seq<char>>,
}

impl ParseState {
    /// The state with the position `n` tokens on.
    pub open spec fn moved(self, n: int) -> ParseState {
        ParseState { at: self.at + n, ..self }
    }

    /// The state after a part of an expression: at its position, with its
    /// count of temporaries.
    pub open spec fn after<T>(self, step: Step<T>) -> ParseState {
        ParseState {
            at: step.at,
            counters: Counters { temps: step.temps, ..self.counters },
            ..self
        }
    }

    /// An error at this state.
    pub open spec fn fail<T>(self, message: Seq<char>) -> Outcome<T> {
        Outcome { state: self, result: Err(message) }
    }

    /// A result at this state.
    pub open spec fn done<T>(self, value: T) -> Outcome<T> {
        Outcome { state: self, result: Ok(value) }
    }
}

/// An error at a position.
pub open spec fn fail<T>(at: int, temps: nat, message: Seq<char>) -> Step<T> {
    Step { at, temps, result: Err(message) }
}

/// A result at a position.
pub open spec fn done<T>(at: int, temps: nat, value: T) -> Step<T> {
    Step { at, temps, result: Ok(value) }
}

/// The token at a position, if the position is within the sequence.
pub open spec fn token_at(tokens: Seq<TokenView>, at: int) -> Option<TokenView> {
    if 0 <= at < tokens.len() {
        Some(tokens[at])
    } else {
        None
    }
}

/// The message for a token wanted where the sequence has ended.
pub open spec fn no_token() -> Seq<char> {
    "expected a token, but got nothing"@
}

/// What a parsing function returns where a call inside it has left the
/// position before its start or behind the end of the tokens. No call does
/// (the comparisons that guard this case serve termination, and the lemmas
/// of the module `progress` show that they hold), so no parse ends here.
pub open spec fn stuck() -> Seq<char> {
    Seq::empty()
}

/// The operation of `+` and `-`.
pub open spec fn additive(token: TokenView) -> Option<BinaryOp> {
    match token {
        TokenView::Plus => Some(BinaryOp::Add),
        TokenView::Subtract => Some(BinaryOp::Sub),
        _ => None,
    }
}

/// The operation of `*`, `%` and `/`.
pub open spec fn multiplicative(token: TokenView) -> Option<BinaryOp> {
    match token {
        TokenView::Multiply => Some(BinaryOp::Mult),
        TokenView::Modulus => Some(BinaryOp::Mod),
        TokenView::Divide => Some(BinaryOp::Div),
        _ => None,
    }
}

/// The comparison of `==`, `!=`, `>`, `>=`, `<` and `<=`.
pub open spec fn relational(token: TokenView) -> Option<BinaryOp> {
    match token {
        TokenView::Equality => Some(BinaryOp::Eq),
        TokenView::NotEqual => Some(BinaryOp::Neq),
        TokenView::Greater => Some(BinaryOp::Gt),
        TokenView::GreaterEqual => Some(BinaryOp::Ge),
        TokenView::Less => Some(BinaryOp::Lt),
        TokenView::LessEqual => Some(BinaryOp::Le),
        _ => None,
    }
}

/// The code for `left op right`: the left operand's code, the declaration
/// of the temporary `t`, the right operand's code, and the operation.
pub open spec fn binary(op: BinaryOp, left: ExprIr, right: ExprIr, t: nat) -> ExprIr {
    ExprIr {
        code: left.code + seq![Instr::Int { var: Operand::Temp(t) }] + right.code + seq![
            Instr::Binary { op, dst: Operand::Temp(t), left: left.operand, right: right.operand },
        ],
        operand: Operand::Temp(t),
    }
}

/// The code for `array[index]`: the declaration of the temporary `t`, the
/// index's code, and the load.
pub open spec fn element(array: Seq<char>, index: ExprIr, t: nat) -> ExprIr {
    ExprIr {
        code: seq![Instr::Int { var: Operand::Temp(t) }] + index.code + seq![
            Instr::Load { dst: Operand::Temp(t), array, index: index.operand },
        ],
        operand: Operand::Temp(t),
    }
}

/// The code for `func(args)`: the arguments' code, the declaration of the
/// temporary `t`, and the call.
pub open spec fn call(func: Seq<char>, code: Seq<Instr>, args: Seq<Operand>, t: nat) -> ExprIr {
    ExprIr {
        code: code + seq![
            Instr::Int { var: Operand::Temp(t) },
            Instr::Call { dst: Operand::Temp(t), func, args },
        ],
        operand: Operand::Temp(t),
    }
}

/// The text of the code for `left op right`.
pub proof fn lemma_render_binary(op: BinaryOp, left: ExprIr, right: ExprIr, t: nat)
    ensures
        render(binary(op, left, right, t).code) == render(left.code) + line1(
            "%int"@,
            temp_name(t),
        ) + render(right.code) + line3(
            opcode(op),
            temp_name(t),
            render_operand(left.operand),
            render_operand(right.operand),
        ),
{
    broadcast use group_render;

    let i1 = Instr::Int { var: Operand::Temp(t) };
    let i2 = Instr::Binary {
        op,
        dst: Operand::Temp(t),
        left: left.operand,
        right: right.operand,
    };
    assert(render(left.code + seq![i1]) == render(left.code) + render(seq![i1]));
    assert(render(left.code + seq![i1] + right.code) == render(left.code + seq![i1]) + render(
        right.code,
    ));
    assert(render(binary(op, left, right, t).code) == render(left.code + seq![i1] + right.code)
        + render(seq![i2]));
}

/// The text of the code for `array[index]`.
pub proof fn lemma_render_element(array: Seq<char>, index: ExprIr, t: nat)
    ensures
        render(element(array, index, t).code) == line1("%int"@, temp_name(t)) + render(index.code)
            + line2("%mov"@, temp_name(t), indexed(array, render_operand(index.operand))),
{
    broadcast use group_render;

    let i1 = Instr::Int { var: Operand::Temp(t) };
    let i2 = Instr::Load { dst: Operand::Temp(t), array, index: index.operand };
    assert(render(seq![i1] + index.code) == render(seq![i1]) + render(index.code));
    assert(render(element(array, index, t).code) == render(seq![i1] + index.code) + render(
        seq![i2],
    ));
}

/// The text of the code for `func(args)`.
pub proof fn lemma_render_call(func: Seq<char>, code: Seq<Instr>, args: Seq<Operand>, t: nat)
    ensures
        render(call(func, code, args, t).code) == render(code) + line1("%int"@, temp_name(t))
            + call_line(temp_name(t), func, render_operands(args)),
{
    broadcast use group_render;

    let i1 = Instr::Int { var: Operand::Temp(t) };
    let i2 = Instr::Call { dst: Operand::Temp(t), func, args };
    assert(seq![i1, i2] =~= seq![i1].push(i2));
    assert(render(seq![i1].push(i2)) == render(seq![i1]) + render_instr(i2));
    assert(render(code + seq![i1, i2]) == render(code) + render(seq![i1, i2]));
    assert(render(code) + (line1("%int"@, temp_name(t)) + call_line(
        temp_name(t),
        func,
        render_operands(args),
    )) =~= render(code) + line1("%int"@, temp_name(t)) + call_line(
        temp_name(t),
        func,
        render_operands(args),
    ));
}

/// The message for a call of a function that is not defined.
pub open spec fn unknown_function(name: Seq<char>) -> Seq<char> {
    "Function "@ + name + " not initialised"@
}

/// The message for an element of an array that is not declared.
pub open spec fn unknown_array(name: Seq<char>) -> Seq<char> {
    "Array "@ + name + " undeclared"@
}

/// The message for a variable that is not declared, in an expression.
pub open spec fn unknown_variable(name: Seq<char>) -> Seq<char> {
    "Error. undeclared variable "@ + name
}

/// A term: a number, a variable, a call, an array element, or an
/// expression in parentheses.
#[verifier::opaque]
pub open spec fn term(tokens: Seq<TokenView>, scope: Scope, at: int, temps: nat) -> Step<ExprIr>
    decreases tokens.len() - at, 0nat,
{
    match token_at(tokens, at) {
        None => fail(at, temps, no_token()),
        Some(TokenView::Ident(name)) => match token_at(tokens, at + 1) {
            None => fail(at + 1, temps, no_token()),
            Some(TokenView::LeftParen) => if !scope.functions.contains(name) {
                fail(at + 2, temps, unknown_function(name))
            } else {
                let args = call_arguments(tokens, scope, at + 2, temps, Seq::empty(), Seq::empty());
                match args.result {
                    Err(message) => fail(args.at, args.temps, message),
                    Ok((code, operands)) => done(
                        args.at,
                        args.temps + 1,
                        call(name, code, operands, args.temps + 1),
                    ),
                }
            },
            Some(TokenView::LeftBracket) => if !scope.arrays.contains(name) {
                fail(at + 2, temps, unknown_array(name))
            } else {
                let index = expression(tokens, scope, at + 2, temps);
                match index.result {
                    Err(message) => fail(index.at, index.temps, message),
                    Ok(i) => match token_at(tokens, index.at) {
                        None => fail(index.at, index.temps, no_token()),
                        Some(TokenView::RightBracket) => done(
                            index.at + 1,
                            index.temps + 1,
                            element(name, i, index.temps + 1),
                        ),
                        Some(_) => fail(index.at + 1, index.temps, "expected ']'"@),
                    },
                }
            },
            Some(_) => if !scope.symbols.contains(name) {
                fail(at + 1, temps, unknown_variable(name))
            } else {
                done(at + 1, temps, ExprIr { code: Seq::empty(), operand: Operand::Var(name) })
            },
        },
        Some(TokenView::Num(n)) => done(
            at + 1,
            temps,
            ExprIr { code: Seq::empty(), operand: Operand::Lit(n as int) },
        ),
        Some(TokenView::LeftParen) => {
            let inner = expression(tokens, scope, at + 1, temps);
            match inner.result {
                Err(message) => fail(inner.at, inner.temps, message),
                Ok(e) => match token_at(tokens, inner.at) {
                    None => fail(inner.at, inner.temps, no_token()),
                    Some(TokenView::RightParen) => done(inner.at + 1, inner.temps, e),
                    Some(_) => fail(inner.at + 1, inner.temps, "expected ')'"@),
                },
            }
        },
        Some(_) => fail(at + 1, temps, "invalid expression"@),
    }
}

/// The arguments of a call, from after `(` or after a comma through `)`,
/// added to the code and the operands of the arguments before them.
#[verifier::opaque]
pub open spec fn call_arguments(
    tokens: Seq<TokenView>,
    scope: Scope,
    at: int,
    temps: nat,
    code: Seq<Instr>,
    operands: Seq<Operand>,
) -> Step<(Seq<Instr>, Seq<Operand>)>
    decreases tokens.len() - at, 3nat,
{
    match token_at(tokens, at) {
        None => fail(at, temps, no_token()),
        Some(TokenView::RightParen) => done(at + 1, temps, (code, operands)),
        Some(_) => {
            let arg = expression(tokens, scope, at, temps);
            match arg.result {
                Err(message) => fail(arg.at, arg.temps, message),
                Ok(e) => match token_at(tokens, arg.at) {
                    None => fail(arg.at, arg.temps, no_token()),
                    Some(TokenView::Comma) => if at <= arg.at {
                        call_arguments(
                            tokens,
                            scope,
                            arg.at + 1,
                            arg.temps,
                            code + e.code,
                            operands.push(e.operand),
                        )
                    } else {
                        fail(arg.at, arg.temps, stuck())
                    },
                    Some(TokenView::RightParen) => done(
                        arg.at + 1,
                        arg.temps,
                        (code + e.code, operands.push(e.operand)),
                    ),
                    Some(_) => fail(arg.at, arg.temps, "expected ',' or ')' in function call"@),
                },
            }
        },
    }
}

/// An expression: products joined by `+` and `-`, grouped from the left.
#[verifier::opaque]
pub open spec fn expression(tokens: Seq<TokenView>, scope: Scope, at: int, temps: nat) -> Step<
    ExprIr,
>
    decreases tokens.len() - at, 2nat,
{
    let first = mul_expression(tokens, scope, at, temps);
    match first.result {
        Err(message) => fail(first.at, first.temps, message),
        Ok(e) => if at <= first.at <= tokens.len() {
            expression_rest(tokens, scope, first.at, first.temps, e)
        } else {
            fail(first.at, first.temps, stuck())
        },
    }
}

/// What follows the first product of an expression, whose code is `left`.
#[verifier::opaque]
pub open spec fn expression_rest(
    tokens: Seq<TokenView>,
    scope: Scope,
    at: int,
    temps: nat,
    left: ExprIr,
) -> Step<ExprIr>
    decreases tokens.len() - at, 0nat,
{
    match token_at(tokens, at) {
        None => fail(at, temps, no_token()),
        Some(token) => match additive(token) {
            None => done(at, temps, left),
            Some(op) => {
                let right = mul_expression(tokens, scope, at + 1, temps);
                match right.result {
                    Err(message) => fail(right.at, right.temps, message),
                    Ok(r) => if at < right.at <= tokens.len() {
                        expression_rest(
                            tokens,
                            scope,
                            right.at,
                            right.temps + 1,
                            binary(op, left, r, right.temps + 1),
                        )
                    } else {
                        fail(right.at, right.temps, stuck())
                    },
                }
            },
        },
    }
}

/// A product: terms joined by `*`, `/` and `%`, grouped from the left.
#[verifier::opaque]
pub open spec fn mul_expression(tokens: Seq<TokenView>, scope: Scope, at: int, temps: nat) -> Step<
    ExprIr,
>
    decreases tokens.len() - at, 1nat,
{
    let first = term(tokens, scope, at, temps);
    match first.result {
        Err(message) => fail(first.at, first.temps, message),
        Ok(e) => if at <= first.at <= tokens.len() {
            mul_rest(tokens, scope, first.at, first.temps, e)
        } else {
            fail(first.at, first.temps, stuck())
        },
    }
}

/// What follows the first term of a product, whose code is `left`.
#[verifier::opaque]
pub open spec fn mul_rest(
    tokens: Seq<TokenView>,
    scope: Scope,
    at: int,
    temps: nat,
    left: ExprIr,
) -> Step<ExprIr>
    decreases tokens.len() - at, 0nat,
{
    match token_at(tokens, at) {
        None => fail(at, temps, no_token()),
        Some(token) => match multiplicative(token) {
            None => done(at, temps, left),
            Some(op) => {
                let right = term(tokens, scope, at + 1, temps);
                match right.result {
                    Err(message) => fail(right.at, right.temps, message),
                    Ok(r) => if at < right.at <= tokens.len() {
                        mul_rest(
                            tokens,
                            scope,
                            right.at,
                            right.temps + 1,
                            binary(op, left, r, right.temps + 1),
                        )
                    } else {
                        fail(right.at, right.temps, stuck())
                    },
                }
            },
        },
    }
}

/// A comparison of two terms. The temporary for the result is made before
/// the operator is looked at.
#[verifier::opaque]
pub open spec fn bool_operation(tokens: Seq<TokenView>, scope: Scope, at: int, temps: nat) -> Step<
    ExprIr,
> {
    let left = term(tokens, scope, at, temps);
    match left.result {
        Err(message) => fail(left.at, left.temps, message),
        Ok(l) => match token_at(tokens, left.at) {
            None => fail(left.at, left.temps, no_token()),
            Some(token) => {
                let right = term(tokens, scope, left.at + 1, left.temps);
                match right.result {
                    Err(message) => fail(right.at, right.temps, message),
                    Ok(r) => match relational(token) {
                        Some(op) => done(
                            right.at,
                            right.temps + 1,
                            binary(op, l, r, right.temps + 1),
                        ),
                        None => fail(
                            right.at,
                            right.temps + 1,
                            "expect boolean operator (i.e. \"<\" or \"==\")..."@,
                        ),
                    },
                }
            },
        },
    }
}

/// The next token, which has to be `wanted`: it is consumed either way.
pub open spec fn expect_step(
    tokens: Seq<TokenView>,
    at: int,
    temps: nat,
    wanted: TokenView,
    message: Seq<char>,
) -> Step<()> {
    match token_at(tokens, at) {
        None => fail(at, temps, no_token()),
        Some(token) => if token == wanted {
            done(at + 1, temps, ())
        } else {
            fail(at + 1, temps, message)
        },
    }
}

/// The next token, which has to be `wanted`, at the state's position.
pub open spec fn expect(
    tokens: Seq<TokenView>,
    state: ParseState,
    wanted: TokenView,
    message: Seq<char>,
) -> Outcome<()> {
    let step = expect_step(tokens, state.at, state.counters.temps, wanted, message);
    Outcome { state: state.after(step), result: step.result }
}

/// A comparison at the state's position.
pub open spec fn condition_in(tokens: Seq<TokenView>, state: ParseState) -> Outcome<ExprIr> {
    let step = bool_operation(tokens, state.scope, state.at, state.counters.temps);
    Outcome { state: state.after(step), result: step.result }
}

/// The message for a variable that is declared again.
pub open spec fn duplicate_variable(name: Seq<char>) -> Seq<char> {
    "Found a duplicate variable "@ + name
}

/// The message for an array that is declared again.
pub open spec fn duplicate_array(name: Seq<char>) -> Seq<char> {
    "Found a duplicate array variable "@ + name
}

/// Where the parser stands after a declaration, the two tables that a
/// declaration adds to, and what the parser found.
pub ghost struct Declared {
    pub at: int,
    pub symbols: Seq<Seq<char>>,
    pub arrays: Seq<Seq<char>>,
    pub result: Result<Seq<Instr>, Seq<char>>,
}

/// A declaration, `int x` or `int[N] a`, at the position of `int`. The name
/// must be new among the variables and the arrays, and joins its table.
#[verifier::opaque]
pub open spec fn declaration(
    tokens: Seq<TokenView>,
    at: int,
    symbols: Seq<Seq<char>>,
    arrays: Seq<Seq<char>>,
) -> Declared {
    let fail = |n: int, message: Seq<char>|
        Declared { at: at + n, symbols, arrays, result: Err(message) };
    match token_at(tokens, at) {
        None => fail(0, no_token()),
        Some(TokenView::Int) => match token_at(tokens, at + 1) {
            None => fail(1, no_token()),
            Some(TokenView::LeftBracket) => match token_at(tokens, at + 2) {
                None => fail(2, no_token()),
                Some(TokenView::Num(size)) => if size <= 0 {
                    fail(3, "Arrays have to be at least one element long"@)
                } else {
                    match token_at(tokens, at + 3) {
                        None => fail(3, no_token()),
                        Some(TokenView::RightBracket) => match token_at(tokens, at + 4) {
                            None => fail(4, no_token()),
                            Some(TokenView::Ident(name)) => if symbols.contains(name)
                                || arrays.contains(name) {
                                fail(5, duplicate_array(name))
                            } else {
                                Declared {
                                    at: at + 5,
                                    symbols,
                                    arrays: arrays.push(name),
                                    result: Ok(seq![Instr::Array { name, size: size as int }]),
                                }
                            },
                            Some(_) => fail(5, "expected identifier for array name"@),
                        },
                        Some(_) => fail(4, "expect ']' closing array size declaration"@),
                    }
                },
                Some(_) => fail(3, "Error: expected Token::Num as length of array"@),
            },
            Some(TokenView::Ident(name)) => if symbols.contains(name) || arrays.contains(name) {
                fail(2, duplicate_variable(name))
            } else {
                Declared {
                    at: at + 2,
                    symbols: symbols.push(name),
                    arrays,
                    result: Ok(seq![Instr::Int { var: Operand::Var(name) }]),
                }
            },
            Some(_) => fail(
                2,
                "expected '[' for array declaration or identifier for int variable"@,
            ),
        },
        Some(_) => fail(1, "invalid declaration, expected 'int' type"@),
    }
}

/// The message for an assignment to an element of an array that is not
/// declared.
pub open spec fn undeclared_array(name: Seq<char>) -> Seq<char> {
    "Array '"@ + name + "' not declared"@
}

/// The message for an assignment to a variable that is not declared.
pub open spec fn undeclared_variable(name: Seq<char>) -> Seq<char> {
    "Variable not declared: "@ + name
}

/// What follows `=` in an assignment: the expression, and the code that
/// `store` makes of its operand after the code in `before`.
pub open spec fn assigned(
    tokens: Seq<TokenView>,
    scope: Scope,
    at: int,
    temps: nat,
    before: Seq<Instr>,
    store: spec_fn(Operand) -> Instr,
) -> Step<Seq<Instr>> {
    let sign = expect_step(
        tokens,
        at,
        temps,
        TokenView::Assign,
        "expected '=' assignment operator"@,
    );
    match sign.result {
        Err(message) => fail(sign.at, sign.temps, message),
        Ok(_) => {
            let value = expression(tokens, scope, sign.at, sign.temps);
            match value.result {
                Err(message) => fail(value.at, value.temps, message),
                Ok(v) => done(value.at, value.temps, v.code + before + seq![store(v.operand)]),
            }
        },
    }
}

/// An assignment to the variable or the array element `name`, from after
/// the name.
#[verifier::opaque]
pub open spec fn assignment(
    tokens: Seq<TokenView>,
    scope: Scope,
    at: int,
    temps: nat,
    name: Seq<char>,
) -> Step<Seq<Instr>> {
    match token_at(tokens, at) {
        None => fail(at, temps, no_token()),
        Some(TokenView::LeftBracket) => if !scope.arrays.contains(name) {
            fail(at, temps, undeclared_array(name))
        } else {
            let index = expression(tokens, scope, at + 1, temps);
            match index.result {
                Err(message) => fail(index.at, index.temps, message),
                Ok(i) => {
                    let close = expect_step(
                        tokens,
                        index.at,
                        index.temps,
                        TokenView::RightBracket,
                        "expected ']'"@,
                    );
                    match close.result {
                        Err(message) => fail(close.at, close.temps, message),
                        Ok(_) => assigned(
                            tokens,
                            scope,
                            close.at,
                            close.temps,
                            i.code,
                            |src: Operand| Instr::Store { array: name, index: i.operand, src },
                        ),
                    }
                },
            }
        },
        Some(_) => if !scope.symbols.contains(name) {
            fail(at, temps, undeclared_variable(name))
        } else {
            assigned(
                tokens,
                scope,
                at,
                temps,
                Seq::empty(),
                |src: Operand| Instr::Mov { dst: Operand::Var(name), src },
            )
        },
    }
}

/// What follows `return`: the expression whose value is returned.
#[verifier::opaque]
pub open spec fn return_statement(tokens: Seq<TokenView>, scope: Scope, at: int, temps: nat) -> Step<
    Seq<Instr>,
> {
    let value = expression(tokens, scope, at, temps);
    match value.result {
        Err(message) => fail(value.at, value.temps, message),
        Ok(v) => done(value.at, value.temps, v.code + seq![Instr::Ret { value: v.operand }]),
    }
}

/// What follows `print` or `read`: the expression in parentheses.
#[verifier::opaque]
pub open spec fn transfer_statement(
    tokens: Seq<TokenView>,
    scope: Scope,
    at: int,
    temps: nat,
    reads: bool,
) -> Step<Seq<Instr>> {
    let open = expect_step(
        tokens,
        at,
        temps,
        TokenView::LeftParen,
        "expect '(' opening statement"@,
    );
    match open.result {
        Err(message) => fail(open.at, open.temps, message),
        Ok(_) => {
            let value = expression(tokens, scope, open.at, open.temps);
            match value.result {
                Err(message) => fail(value.at, value.temps, message),
                Ok(v) => {
                    let close = expect_step(
                        tokens,
                        value.at,
                        value.temps,
                        TokenView::RightParen,
                        "expect ')' closing statement"@,
                    );
                    match close.result {
                        Err(message) => fail(close.at, close.temps, message),
                        Ok(_) => done(
                            close.at,
                            close.temps,
                            v.code + seq![
                                if reads {
                                    Instr::Input { value: v.operand }
                                } else {
                                    Instr::Out { value: v.operand }
                                },
                            ],
                        ),
                    }
                },
            }
        },
    }
}

/// What follows `break` or `continue`: the semicolon. The code is a jump to
/// the end or to the beginning of the innermost loop.
#[verifier::opaque]
pub open spec fn jump_statement(
    tokens: Seq<TokenView>,
    at: int,
    labels: Seq<(Seq<char>, Seq<char>)>,
    again: bool,
) -> Step<Seq<Instr>> {
    if labels.len() == 0 {
        fail(
            at,
            0,
            if again {
                "`continue` statement not within loop"@
            } else {
                "`break` statement not within loop"@
            },
        )
    } else {
        let end = expect_step(
            tokens,
            at,
            0,
            TokenView::Semicolon,
            if again {
                "expect ';' after 'continue'"@
            } else {
                "expect ';' after 'break'"@
            },
        );
        match end.result {
            Err(message) => fail(end.at, 0, message),
            Ok(_) => done(
                end.at,
                0,
                seq![
                    Instr::Jmp {
                        target: if again {
                            labels.last().0
                        } else {
                            labels.last().1
                        },
                    },
                ],
            ),
        }
    }
}

impl ParseState {
    /// The state after a step that ends a statement and makes no
    /// temporary.
    pub open spec fn finish(self, step: Step<Seq<Instr>>) -> Outcome<Option<Seq<Instr>>> {
        Outcome {
            state: ParseState { at: step.at, ..self },
            result: match step.result {
                Ok(code) => Ok(Some(code)),
                Err(message) => Err(message),
            },
        }
    }

    /// The state after a step that a semicolon has to follow.
    pub open spec fn close(self, tokens: Seq<TokenView>, step: Step<Seq<Instr>>) -> Outcome<
        Option<Seq<Instr>>,
    > {
        match step.result {
            Err(message) => self.after(step).fail(message),
            Ok(code) => {
                let end = expect(
                    tokens,
                    self.after(step),
                    TokenView::Semicolon,
                    "expect ';' closing statement"@,
                );
                match end.result {
                    Err(message) => end.state.fail(message),
                    Ok(_) => end.state.done(Some(code)),
                }
            },
        }
    }

    /// The state after a declaration, which a semicolon has to follow.
    pub open spec fn declare(self, tokens: Seq<TokenView>, found: Declared) -> Outcome<
        Option<Seq<Instr>>,
    > {
        let declared = ParseState {
            scope: Scope { symbols: found.symbols, arrays: found.arrays, ..self.scope },
            ..self
        };
        declared.close(
            tokens,
            Step { at: found.at, temps: self.counters.temps, result: found.result },
        )
    }
}

/// The code of the `n`-th loop.
pub open spec fn loop_code(n: nat, cond: ExprIr, body: Seq<Instr>) -> Seq<Instr> {
    seq![Instr::Label { name: loop_begin(n) }] + cond.code + seq![
        Instr::BranchIfn { cond: cond.operand, target: loop_end(n) },
    ] + body + seq![Instr::Jmp { target: loop_begin(n) }, Instr::Label { name: loop_end(n) }]
}

/// The code of the `n`-th conditional, up to its second branch.
pub open spec fn branch_head(n: nat, cond: ExprIr, first: Seq<Instr>) -> Seq<Instr> {
    cond.code + seq![
        Instr::BranchIf { cond: cond.operand, target: branch_then(n) },
        Instr::Jmp { target: branch_else(n) },
        Instr::Label { name: branch_then(n) },
    ] + first + seq![Instr::Jmp { target: branch_end(n) }, Instr::Label { name: branch_else(n) }]
}

/// The code of the `n`-th conditional.
pub open spec fn branch_code(n: nat, cond: ExprIr, first: Seq<Instr>, second: Seq<Instr>) -> Seq<
    Instr,
> {
    branch_head(n, cond, first) + second + seq![Instr::Label { name: branch_end(n) }]
}

/// The text of code that ends with one instruction after two pieces.
pub proof fn lemma_render_parts(a: Seq<Instr>, b: Seq<Instr>, last: Instr)
    ensures
        render(a + b + seq![last]) == render(a) + render(b) + render_instr(last),
{
    broadcast use group_render;

    assert(render(a + b) == render(a) + render(b));
    assert(render(a + b + seq![last]) == render(a + b) + render(seq![last]));
}

/// The text of a loop.
pub proof fn lemma_render_loop(n: nat, cond: ExprIr, body: Seq<Instr>)
    ensures
        render(loop_code(n, cond, body)) == (loop_begin(n) + "\n"@) + render(cond.code) + line2(
            "%branch_ifn"@,
            render_operand(cond.operand),
            loop_end(n),
        ) + render(body) + line1("%jmp"@, loop_begin(n)) + (loop_end(n) + "\n"@),
{
    broadcast use group_render;

    let begin = Instr::Label { name: loop_begin(n) };
    let test = Instr::BranchIfn { cond: cond.operand, target: loop_end(n) };
    let back = Instr::Jmp { target: loop_begin(n) };
    let end = Instr::Label { name: loop_end(n) };
    let s1 = seq![begin] + cond.code;
    let s2 = s1 + seq![test];
    let s3 = s2 + body;
    let tail = seq![back, end];
    assert(tail =~= seq![back].push(end));
    assert(render(seq![back].push(end)) == render(seq![back]) + render_instr(end));
    assert(render(s1) == render(seq![begin]) + render(cond.code));
    assert(render(s2) == render(s1) + render(seq![test]));
    assert(render(s3) == render(s2) + render(body));
    assert(render(s3 + tail) == render(s3) + render(tail));
    assert(loop_code(n, cond, body) == s3 + tail);
    assert(render(s3) + (render_instr(back) + render_instr(end)) =~= render(s3) + render_instr(back)
        + render_instr(end));
}

/// The text of a conditional.
pub proof fn lemma_render_branch(n: nat, cond: ExprIr, first: Seq<Instr>, second: Seq<Instr>)
    ensures
        render(branch_code(n, cond, first, second)) == render(cond.code) + line2(
            "%branch_if"@,
            render_operand(cond.operand),
            branch_then(n),
        ) + line1("%jmp"@, branch_else(n)) + (branch_then(n) + "\n"@) + render(first) + line1(
            "%jmp"@,
            branch_end(n),
        ) + (branch_else(n) + "\n"@) + render(second) + (branch_end(n) + "\n"@),
{
    broadcast use group_render;

    let test = Instr::BranchIf { cond: cond.operand, target: branch_then(n) };
    let skip = Instr::Jmp { target: branch_else(n) };
    let taken = Instr::Label { name: branch_then(n) };
    let leave = Instr::Jmp { target: branch_end(n) };
    let other = Instr::Label { name: branch_else(n) };
    let end = Instr::Label { name: branch_end(n) };
    let head = seq![test, skip, taken];
    let mid = seq![leave, other];
    assert(head =~= seq![test].push(skip).push(taken));
    assert(render(seq![test].push(skip)) == render(seq![test]) + render_instr(skip));
    assert(render(seq![test].push(skip).push(taken)) == render(seq![test].push(skip))
        + render_instr(taken));
    assert(mid =~= seq![leave].push(other));
    assert(render(seq![leave].push(other)) == render(seq![leave]) + render_instr(other));
    let s1 = cond.code + head;
    let s2 = s1 + first;
    let s3 = s2 + mid;
    let s4 = s3 + second;
    assert(render(s1) == render(cond.code) + render(head));
    assert(render(s2) == render(s1) + render(first));
    assert(render(s3) == render(s2) + render(mid));
    assert(render(s4) == render(s3) + render(second));
    assert(render(s4 + seq![end]) == render(s4) + render(seq![end]));
    assert(branch_code(n, cond, first, second) == s4 + seq![end]);
    let a = render(cond.code);
    let t1 = render_instr(test);
    let t2 = render_instr(skip);
    let t3 = render_instr(taken);
    let t4 = render_instr(leave);
    let t5 = render_instr(other);
    assert(a + (t1 + t2 + t3) + render(first) + (t4 + t5) =~= a + t1 + t2 + t3 + render(first) + t4
        + t5);
}

/// The text of a function.
pub proof fn lemma_render_function(name: Seq<char>, params: Seq<Seq<char>>, body: Seq<Instr>)
    ensures
        render(function_code(name, params, body)) == func_line(name, params) + render(body)
            + "%endfunc\n\n"@,
{
    broadcast use group_render;

    let head = Instr::Func { name, params };
    assert(render(seq![head] + body) == render(seq![head]) + render(body));
    assert(render(seq![head] + body + seq![Instr::EndFunc]) == render(seq![head] + body) + render(
        seq![Instr::EndFunc],
    ));
}

/// Statements in braces: `{`, statements, `}`. The messages are for a
/// token that stands where a brace has to.
#[verifier::opaque]
pub open spec fn block(
    tokens: Seq<TokenView>,
    state: ParseState,
    open_message: Seq<char>,
    close_message: Seq<char>,
) -> Outcome<Seq<Instr>>
    decreases tokens.len() - state.at, 3nat,
{
    let open = expect(tokens, state, TokenView::LeftCurly, open_message);
    match open.result {
        Err(message) => open.state.fail(message),
        Ok(_) => {
            let body = statements(tokens, open.state, Seq::empty());
            match body.result {
                Err(message) => body.state.fail(message),
                Ok(code) => {
                    let close = expect(tokens, body.state, TokenView::RightCurly, close_message);
                    match close.result {
                        Err(message) => close.state.fail(message),
                        Ok(_) => close.state.done(code),
                    }
                },
            }
        },
    }
}

/// A loop, at the position of `while`: the comparison and the body. The
/// loop takes the next pair of loop labels, which its body finds on top of
/// the stack.
#[verifier::opaque]
pub open spec fn while_statement(tokens: Seq<TokenView>, state: ParseState) -> Outcome<
    Option<Seq<Instr>>,
>
    decreases tokens.len() - state.at, 0nat,
{
    let n = state.counters.loops + 1;
    let entered = ParseState {
        at: state.at + 1,
        counters: Counters { loops: n, ..state.counters },
        labels: state.labels.push((loop_begin(n), loop_end(n))),
        ..state
    };
    let cond = condition_in(tokens, entered);
    match cond.result {
        Err(message) => cond.state.fail(message),
        Ok(c) => if state.at < cond.state.at <= tokens.len() {
            let body = block(tokens, cond.state, "expected '{'"@, "expected '}' after while"@);
            match body.result {
                Err(message) => body.state.fail(message),
                Ok(code) => ParseState {
                    labels: body.state.labels.drop_last(),
                    ..body.state
                }.done(Some(loop_code(n, c, code))),
            }
        } else {
            cond.state.fail(stuck())
        },
    }
}

/// A conditional, at the position of `if`: the comparison, the first
/// branch, and the second where `else` follows. The conditional takes the
/// next triple of labels.
#[verifier::opaque]
pub open spec fn if_statement(tokens: Seq<TokenView>, state: ParseState) -> Outcome<
    Option<Seq<Instr>>,
>
    decreases tokens.len() - state.at, 0nat,
{
    let n = state.counters.branches + 1;
    let entered = ParseState {
        at: state.at + 1,
        counters: Counters { branches: n, ..state.counters },
        ..state
    };
    let cond = condition_in(tokens, entered);
    match cond.result {
        Err(message) => cond.state.fail(message),
        Ok(c) => if state.at < cond.state.at <= tokens.len() {
            let first = block(tokens, cond.state, "expected '{'"@, "expected '}' after if"@);
            match first.result {
                Err(message) => first.state.fail(message),
                Ok(code) => match token_at(tokens, first.state.at) {
                    Some(TokenView::Else) => if state.at < first.state.at <= tokens.len() {
                        let second = block(
                            tokens,
                            first.state.moved(1),
                            "expected '{'"@,
                            "expected '}' after else"@,
                        );
                        match second.result {
                            Err(message) => second.state.fail(message),
                            Ok(other) => second.state.done(Some(branch_code(n, c, code, other))),
                        }
                    } else {
                        first.state.fail(stuck())
                    },
                    _ => first.state.done(Some(branch_code(n, c, code, Seq::empty()))),
                },
            }
        } else {
            cond.state.fail(stuck())
        },
    }
}

/// One statement, or nothing where the tokens end or `}` stands.
#[verifier::opaque]
pub open spec fn statement(tokens: Seq<TokenView>, state: ParseState) -> Outcome<Option<Seq<Instr>>>
    decreases tokens.len() - state.at, 1nat,
{
    match token_at(tokens, state.at) {
        None => state.done(None),
        Some(TokenView::RightCurly) => state.done(None),
        Some(TokenView::Int) => state.declare(
            tokens,
            declaration(tokens, state.at, state.scope.symbols, state.scope.arrays),
        ),
        Some(TokenView::Ident(name)) => state.close(
            tokens,
            assignment(tokens, state.scope, state.at + 1, state.counters.temps, name),
        ),
        Some(TokenView::Return) => state.close(
            tokens,
            return_statement(tokens, state.scope, state.at + 1, state.counters.temps),
        ),
        Some(TokenView::Print) => state.close(
            tokens,
            transfer_statement(tokens, state.scope, state.at + 1, state.counters.temps, false),
        ),
        Some(TokenView::Read) => state.close(
            tokens,
            transfer_statement(tokens, state.scope, state.at + 1, state.counters.temps, true),
        ),
        Some(TokenView::Break) => state.finish(
            jump_statement(tokens, state.at + 1, state.labels, false),
        ),
        Some(TokenView::Continue) => state.finish(
            jump_statement(tokens, state.at + 1, state.labels, true),
        ),
        Some(TokenView::While) => while_statement(tokens, state),
        Some(TokenView::If) => if_statement(tokens, state),
        Some(_) => state.fail("invalid statement."@),
    }
}

/// The statements from the state's position up to where the tokens end or
/// `}` stands, added to the code of the statements before them.
#[verifier::opaque]
pub open spec fn statements(tokens: Seq<TokenView>, state: ParseState, code: Seq<Instr>) -> Outcome<
    Seq<Instr>,
>
    decreases tokens.len() - state.at, 2nat,
{
    let one = statement(tokens, state);
    match one.result {
        Err(message) => one.state.fail(message),
        Ok(None) => one.state.done(code),
        Ok(Some(more)) => if state.at < one.state.at <= tokens.len() {
            statements(tokens, one.state, code + more)
        } else {
            one.state.fail(stuck())
        },
    }
}

/// The parameters of a function, from after `(` or after a parameter
/// through `)`, added to the parameters before them.
#[verifier::opaque]
pub open spec fn parameters(tokens: Seq<TokenView>, at: int, params: Seq<Seq<char>>) -> Step<
    Seq<Seq<char>>,
>
    decreases tokens.len() - at,
{
    match token_at(tokens, at) {
        None => fail(at, 0, no_token()),
        Some(TokenView::RightParen) => done(at + 1, 0, params),
        Some(TokenView::Int) => match token_at(tokens, at + 1) {
            None => fail(at + 1, 0, no_token()),
            Some(TokenView::Ident(name)) => if params.contains(name) {
                fail(at + 2, 0, duplicate_variable(name))
            } else {
                match token_at(tokens, at + 2) {
                    None => fail(at + 2, 0, no_token()),
                    Some(TokenView::Comma) => parameters(tokens, at + 3, params.push(name)),
                    Some(TokenView::RightParen) => done(at + 3, 0, params.push(name)),
                    Some(_) => fail(at + 2, 0, "expected ',' or ')'"@),
                }
            },
            Some(_) => fail(at + 2, 0, "expected ident function parameter"@),
        },
        Some(_) => fail(at + 1, 0, "expected 'int' keyword or ')' token"@),
    }
}

/// The message for a function that is defined again.
pub open spec fn duplicate_function(name: Seq<char>) -> Seq<char> {
    "Error: Function "@ + name + " already declared"@
}

/// The code of a function: its header, its body and its end.
pub open spec fn function_code(name: Seq<char>, params: Seq<Seq<char>>, body: Seq<Instr>) -> Seq<
    Instr,
> {
    seq![Instr::Func { name, params }] + body + seq![Instr::EndFunc]
}

/// One function, or nothing where the tokens end.
#[verifier::opaque]
pub open spec fn function(
    tokens: Seq<TokenView>,
    at: int,
    functions: Seq<Seq<char>>,
    counters: Counters,
) -> Unit {
    match token_at(tokens, at) {
        None => Unit { at, counters, functions, result: Ok(None) },
        Some(TokenView::Func) => match token_at(tokens, at + 1) {
            None => Unit { at: at + 1, counters, functions, result: Err(no_token()) },
            Some(TokenView::Ident(name)) => if functions.contains(name) {
                Unit { at: at + 2, counters, functions, result: Err(duplicate_function(name)) }
            } else {
                let known = functions.push(name);
                match token_at(tokens, at + 2) {
                    None => Unit { at: at + 2, counters, functions: known, result: Err(no_token()) },
                    Some(TokenView::LeftParen) => {
                        let header = parameters(tokens, at + 3, Seq::empty());
                        match header.result {
                            Err(message) => Unit {
                                at: header.at,
                                counters,
                                functions: known,
                                result: Err(message),
                            },
                            Ok(params) => {
                                let start = ParseState {
                                    at: header.at,
                                    counters,
                                    scope: Scope {
                                        symbols: params,
                                        arrays: Seq::empty(),
                                        functions: known,
                                    },
                                    labels: Seq::empty(),
                                };
                                let body = block(
                                    tokens,
                                    start,
                                    "expected '{' for function"@,
                                    "expected '}' after function"@,
                                );
                                Unit {
                                    at: body.state.at,
                                    counters: body.state.counters,
                                    functions: known,
                                    result: match body.result {
                                        Err(message) => Err(message),
                                        Ok(code) => Ok(Some(function_code(name, params, code))),
                                    },
                                }
                            },
                        }
                    },
                    Some(_) => Unit {
                        at: at + 3,
                        counters,
                        functions: known,
                        result: Err("expected '('"@),
                    },
                }
            },
            Some(_) => Unit {
                at: at + 2,
                counters,
                functions,
                result: Err("functions must have a function identifier"@),
            },
        },
        Some(_) => Unit {
            at: at + 1,
            counters,
            functions,
            result: Err("functions must begin with func"@),
        },
    }
}

/// The functions from a position to the end of the tokens, added to the
/// code of the functions before them. On success `functions` holds every
/// function's name.
#[verifier::opaque]
pub open spec fn functions_from(
    tokens: Seq<TokenView>,
    at: int,
    functions: Seq<Seq<char>>,
    counters: Counters,
    code: Seq<Instr>,
) -> Unit
    decreases tokens.len() - at,
{
    let one = function(tokens, at, functions, counters);
    match one.result {
        Err(message) => one,
        Ok(None) => Unit { result: Ok(Some(code)), ..one },
        Ok(Some(more)) => if at < one.at <= tokens.len() {
            functions_from(tokens, one.at, one.functions, one.counters, code + more)
        } else {
            Unit { result: Err(stuck()), ..one }
        },
    }
}

/// A program: functions up to the end of the tokens, `main` among them.
#[verifier::opaque]
pub open spec fn program(tokens: Seq<TokenView>, at: int) -> Program {
    let all = functions_from(
        tokens,
        at,
        Seq::empty(),
        Counters { temps: 0, loops: 0, branches: 0 },
        Seq::empty(),
    );
    Program {
        at: all.at,
        functions: all.functions,
        result: match all.result {
            Ok(Some(code)) => if all.functions.contains("main"@) {
                Ok(code)
            } else {
                Err("Missing 'main' function"@)
            },
            Ok(None) => Err(stuck()),
            Err(message) => Err(message),
        },
    }
}

} // verus!
