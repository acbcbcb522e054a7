//! Parsing only moves forward and stays within the tokens.

use crate::grammar::{
    additive, assignment, block, bool_operation, call_arguments, condition_in, declaration,
    expect, expect_step, expression, expression_rest, function, functions_from, if_statement,
    jump_statement, mul_expression, mul_rest, multiplicative, parameters, program,
    return_statement, statement, statements, term, token_at, transfer_statement,
    while_statement, Counters, ExprIr, ParseState, Scope,
};
use crate::ir::{loop_begin, loop_end, Instr, Operand};
use crate::token::TokenView;
use vstd::prelude::*;

verus! {

/// Whether a position after parsing is one that parsing can reach from the
/// position before: not before it, and within the tokens unless nothing
/// was consumed.
pub open spec fn moves(len: int, from: int, to: int) -> bool {
    from <= to && (to <= len || to == from)
}

/// A term leaves the position where parsing can reach. So do the other
/// parts of an expression: the comparisons that guard the recursion of the
/// grammar always hold.
pub proof fn lemma_term_moves(tokens: Seq<TokenView>, scope: Scope, at: int, temps: nat)
    ensures
        moves(tokens.len() as int, at, term(tokens, scope, at, temps).at),
    decreases tokens.len() - at, 0nat,
{
    reveal(term);
    reveal(call_arguments);
    reveal(expression);
    match token_at(tokens, at) {
        Some(TokenView::Ident(name)) => match token_at(tokens, at + 1) {
            Some(TokenView::LeftParen) => {
                if scope.functions.contains(name) {
                    lemma_call_arguments_moves(
                        tokens,
                        scope,
                        at + 2,
                        temps,
                        Seq::empty(),
                        Seq::empty(),
                    );
                }
            },
            Some(TokenView::LeftBracket) => {
                if scope.arrays.contains(name) {
                    lemma_expression_moves(tokens, scope, at + 2, temps);
                }
            },
            _ => {},
        },
        Some(TokenView::LeftParen) => {
            lemma_expression_moves(tokens, scope, at + 1, temps);
        },
        _ => {},
    }
}

/// The arguments of a call leave the position where parsing can reach.
pub proof fn lemma_call_arguments_moves(
    tokens: Seq<TokenView>,
    scope: Scope,
    at: int,
    temps: nat,
    code: Seq<Instr>,
    operands: Seq<Operand>,
)
    ensures
        moves(
            tokens.len() as int,
            at,
            call_arguments(tokens, scope, at, temps, code, operands).at,
        ),
    decreases tokens.len() - at, 3nat,
{
    reveal(call_arguments);
    reveal(expression);
    match token_at(tokens, at) {
        None => {},
        Some(TokenView::RightParen) => {},
        Some(_) => {
            lemma_expression_moves(tokens, scope, at, temps);
            let arg = expression(tokens, scope, at, temps);
            if let Ok(e) = arg.result {
                match token_at(tokens, arg.at) {
                    Some(TokenView::Comma) => {
                        lemma_call_arguments_moves(
                            tokens,
                            scope,
                            arg.at + 1,
                            arg.temps,
                            code + e.code,
                            operands.push(e.operand),
                        );
                    },
                    _ => {},
                }
            }
        },
    }
}

/// An expression leaves the position where parsing can reach.
pub proof fn lemma_expression_moves(tokens: Seq<TokenView>, scope: Scope, at: int, temps: nat)
    ensures
        moves(tokens.len() as int, at, expression(tokens, scope, at, temps).at),
    decreases tokens.len() - at, 2nat,
{
    reveal(expression);
    reveal(mul_expression);
    reveal(expression_rest);
    lemma_mul_expression_moves(tokens, scope, at, temps);
    let first = mul_expression(tokens, scope, at, temps);
    if let Ok(e) = first.result {
        lemma_expression_rest_moves(tokens, scope, first.at, first.temps, e);
    }
}

/// The rest of an expression leaves the position where parsing can reach.
pub proof fn lemma_expression_rest_moves(
    tokens: Seq<TokenView>,
    scope: Scope,
    at: int,
    temps: nat,
    left: ExprIr,
)
    ensures
        moves(tokens.len() as int, at, expression_rest(tokens, scope, at, temps, left).at),
    decreases tokens.len() - at, 0nat,
{
    reveal(expression_rest);
    reveal(mul_expression);
    if let Some(token) = token_at(tokens, at) {
        if let Some(op) = additive(token) {
            lemma_mul_expression_moves(tokens, scope, at + 1, temps);
            let right = mul_expression(tokens, scope, at + 1, temps);
            if let Ok(r) = right.result {
                lemma_expression_rest_moves(
                    tokens,
                    scope,
                    right.at,
                    right.temps + 1,
                    crate::grammar::binary(op, left, r, right.temps + 1),
                );
            }
        }
    }
}

/// A product leaves the position where parsing can reach.
pub proof fn lemma_mul_expression_moves(tokens: Seq<TokenView>, scope: Scope, at: int, temps: nat)
    ensures
        moves(tokens.len() as int, at, mul_expression(tokens, scope, at, temps).at),
    decreases tokens.len() - at, 1nat,
{
    reveal(mul_expression);
    reveal(term);
    reveal(mul_rest);
    lemma_term_moves(tokens, scope, at, temps);
    let first = term(tokens, scope, at, temps);
    if let Ok(e) = first.result {
        lemma_mul_rest_moves(tokens, scope, first.at, first.temps, e);
    }
}

/// The rest of a product leaves the position where parsing can reach.
pub proof fn lemma_mul_rest_moves(
    tokens: Seq<TokenView>,
    scope: Scope,
    at: int,
    temps: nat,
    left: ExprIr,
)
    ensures
        moves(tokens.len() as int, at, mul_rest(tokens, scope, at, temps, left).at),
    decreases tokens.len() - at, 0nat,
{
    reveal(mul_rest);
    reveal(term);
    if let Some(token) = token_at(tokens, at) {
        if let Some(op) = multiplicative(token) {
            lemma_term_moves(tokens, scope, at + 1, temps);
            let right = term(tokens, scope, at + 1, temps);
            if let Ok(r) = right.result {
                lemma_mul_rest_moves(
                    tokens,
                    scope,
                    right.at,
                    right.temps + 1,
                    crate::grammar::binary(op, left, r, right.temps + 1),
                );
            }
        }
    }
}

/// A comparison leaves the position where parsing can reach.
pub proof fn lemma_bool_operation_moves(tokens: Seq<TokenView>, scope: Scope, at: int, temps: nat)
    ensures
        moves(tokens.len() as int, at, bool_operation(tokens, scope, at, temps).at),
{
    reveal(bool_operation);
    lemma_term_moves(tokens, scope, at, temps);
    let left = term(tokens, scope, at, temps);
    if left.result is Ok {
        lemma_term_moves(tokens, scope, left.at + 1, left.temps);
    }
}

/// The parts of a statement leave the position where parsing can reach.
pub proof fn lemma_simple_moves(
    tokens: Seq<TokenView>,
    scope: Scope,
    at: int,
    temps: nat,
    name: Seq<char>,
    labels: Seq<(Seq<char>, Seq<char>)>,
    flag: bool,
)
    ensures
        moves(tokens.len() as int, at, assignment(tokens, scope, at, temps, name).at),
        moves(tokens.len() as int, at, return_statement(tokens, scope, at, temps).at),
        moves(tokens.len() as int, at, transfer_statement(tokens, scope, at, temps, flag).at),
        moves(tokens.len() as int, at, jump_statement(tokens, at, labels, flag).at),
        moves(
            tokens.len() as int,
            at,
            declaration(tokens, at, scope.symbols, scope.arrays).at,
        ),
{
    reveal(assignment);
    reveal(return_statement);
    reveal(transfer_statement);
    reveal(jump_statement);
    reveal(declaration);
    lemma_expression_moves(tokens, scope, at, temps);
    lemma_expression_moves(tokens, scope, at + 1, temps);
    let index = expression(tokens, scope, at + 1, temps);
    let close = expect_step(tokens, index.at, index.temps, TokenView::RightBracket, "expected ']'"@);
    let sign = expect_step(
        tokens,
        close.at,
        close.temps,
        TokenView::Assign,
        "expected '=' assignment operator"@,
    );
    lemma_expression_moves(tokens, scope, sign.at, sign.temps);
    let plain = expect_step(tokens, at, temps, TokenView::Assign, "expected '=' assignment operator"@);
    lemma_expression_moves(tokens, scope, plain.at, plain.temps);
    let open = expect_step(tokens, at, temps, TokenView::LeftParen, "expect '(' opening statement"@);
    lemma_expression_moves(tokens, scope, open.at, open.temps);
}

/// Statements in braces leave the position where parsing can reach. So do
/// loops, conditionals and statements.
pub proof fn lemma_block_moves(
    tokens: Seq<TokenView>,
    state: ParseState,
    open_message: Seq<char>,
    close_message: Seq<char>,
)
    ensures
        moves(
            tokens.len() as int,
            state.at,
            block(tokens, state, open_message, close_message).state.at,
        ),
    decreases tokens.len() - state.at, 3nat,
{
    reveal(block);
    reveal(statements);
    let opening = expect(tokens, state, TokenView::LeftCurly, open_message);
    if opening.result is Ok {
        lemma_statements_moves(tokens, opening.state, Seq::empty());
    }
}

/// A loop leaves the position where parsing can reach.
pub proof fn lemma_while_moves(tokens: Seq<TokenView>, state: ParseState)
    ensures
        moves(tokens.len() as int, state.at, while_statement(tokens, state).state.at) || (
        token_at(tokens, state.at) is None),
        while_statement(tokens, state).result is Ok ==> state.at < while_statement(
            tokens,
            state,
        ).state.at,
    decreases tokens.len() - state.at, 0nat,
{
    reveal(while_statement);
    reveal(block);
    let n = state.counters.loops + 1;
    let entered = ParseState {
        at: state.at + 1,
        counters: Counters { loops: n, ..state.counters },
        labels: state.labels.push((loop_begin(n), loop_end(n))),
        ..state
    };
    lemma_bool_operation_moves(tokens, entered.scope, entered.at, entered.counters.temps);
    let cond = condition_in(tokens, entered);
    if cond.result is Ok && state.at < cond.state.at <= tokens.len() {
        lemma_block_moves(tokens, cond.state, "expected '{'"@, "expected '}' after while"@);
    }
}

/// A conditional leaves the position where parsing can reach.
pub proof fn lemma_if_moves(tokens: Seq<TokenView>, state: ParseState)
    ensures
        moves(tokens.len() as int, state.at, if_statement(tokens, state).state.at) || (token_at(
            tokens,
            state.at,
        ) is None),
        if_statement(tokens, state).result is Ok ==> state.at < if_statement(
            tokens,
            state,
        ).state.at,
    decreases tokens.len() - state.at, 0nat,
{
    reveal(if_statement);
    reveal(block);
    let n = state.counters.branches + 1;
    let entered = ParseState {
        at: state.at + 1,
        counters: Counters { branches: n, ..state.counters },
        ..state
    };
    lemma_bool_operation_moves(tokens, entered.scope, entered.at, entered.counters.temps);
    let cond = condition_in(tokens, entered);
    if cond.result is Ok && state.at < cond.state.at <= tokens.len() {
        lemma_block_moves(tokens, cond.state, "expected '{'"@, "expected '}' after if"@);
        let first = block(tokens, cond.state, "expected '{'"@, "expected '}' after if"@);
        if first.result is Ok {
            match token_at(tokens, first.state.at) {
                Some(TokenView::Else) => {
                    lemma_block_moves(
                        tokens,
                        first.state.moved(1),
                        "expected '{'"@,
                        "expected '}' after else"@,
                    );
                },
                _ => {},
            }
        }
    }
}

/// A statement leaves the position where parsing can reach.
pub proof fn lemma_statement_moves(tokens: Seq<TokenView>, state: ParseState)
    ensures
        moves(tokens.len() as int, state.at, statement(tokens, state).state.at),
        statement(tokens, state).result matches Ok(Some(_)) ==> state.at < statement(
            tokens,
            state,
        ).state.at,
    decreases tokens.len() - state.at, 1nat,
{
    reveal(statement);
    reveal(while_statement);
    reveal(if_statement);
    match token_at(tokens, state.at) {
        Some(TokenView::Int) => {
            lemma_simple_moves(
                tokens,
                state.scope,
                state.at,
                state.counters.temps,
                Seq::empty(),
                state.labels,
                false,
            );
        },
        Some(TokenView::Ident(name)) => {
            lemma_simple_moves(
                tokens,
                state.scope,
                state.at + 1,
                state.counters.temps,
                name,
                state.labels,
                false,
            );
        },
        Some(TokenView::Return) => {
            lemma_simple_moves(
                tokens,
                state.scope,
                state.at + 1,
                state.counters.temps,
                Seq::empty(),
                state.labels,
                false,
            );
        },
        Some(TokenView::Print) => {
            lemma_simple_moves(
                tokens,
                state.scope,
                state.at + 1,
                state.counters.temps,
                Seq::empty(),
                state.labels,
                false,
            );
        },
        Some(TokenView::Read) => {
            lemma_simple_moves(
                tokens,
                state.scope,
                state.at + 1,
                state.counters.temps,
                Seq::empty(),
                state.labels,
                true,
            );
        },
        Some(TokenView::Break) => {
            lemma_simple_moves(
                tokens,
                state.scope,
                state.at + 1,
                state.counters.temps,
                Seq::empty(),
                state.labels,
                false,
            );
        },
        Some(TokenView::Continue) => {
            lemma_simple_moves(
                tokens,
                state.scope,
                state.at + 1,
                state.counters.temps,
                Seq::empty(),
                state.labels,
                true,
            );
        },
        Some(TokenView::While) => {
            lemma_while_moves(tokens, state);
        },
        Some(TokenView::If) => {
            lemma_if_moves(tokens, state);
        },
        _ => {},
    }
}

/// Statements leave the position where parsing can reach.
pub proof fn lemma_statements_moves(tokens: Seq<TokenView>, state: ParseState, code: Seq<Instr>)
    ensures
        moves(tokens.len() as int, state.at, statements(tokens, state, code).state.at),
    decreases tokens.len() - state.at, 2nat,
{
    reveal(statements);
    reveal(statement);
    lemma_statement_moves(tokens, state);
    let one = statement(tokens, state);
    if let Ok(Some(more)) = one.result {
        lemma_statements_moves(tokens, one.state, code + more);
    }
}

/// A function leaves the position where parsing can reach, and behind
/// where it was if it found a function.
pub proof fn lemma_function_moves(
    tokens: Seq<TokenView>,
    at: int,
    functions: Seq<Seq<char>>,
    counters: Counters,
)
    ensures
        moves(tokens.len() as int, at, function(tokens, at, functions, counters).at),
        function(tokens, at, functions, counters).result matches Ok(Some(_)) ==> at < function(
            tokens,
            at,
            functions,
            counters,
        ).at,
{
    reveal(function);
    lemma_parameters_moves(tokens, at + 3, Seq::empty());
    let header = parameters(tokens, at + 3, Seq::empty());
    if let Some(TokenView::Ident(name)) = token_at(tokens, at + 1) {
        if let Ok(params) = header.result {
            let start = ParseState {
                at: header.at,
                counters,
                scope: Scope {
                    symbols: params,
                    arrays: Seq::empty(),
                    functions: functions.push(name),
                },
                labels: Seq::empty(),
            };
            lemma_block_moves(
                tokens,
                start,
                "expected '{' for function"@,
                "expected '}' after function"@,
            );
        }
    }
}

/// The parameters of a function leave the position where parsing can
/// reach.
pub proof fn lemma_parameters_moves(tokens: Seq<TokenView>, at: int, params: Seq<Seq<char>>)
    ensures
        moves(tokens.len() as int, at, parameters(tokens, at, params).at),
    decreases tokens.len() - at,
{
    reveal(parameters);
    match token_at(tokens, at) {
        Some(TokenView::Int) => match token_at(tokens, at + 1) {
            Some(TokenView::Ident(name)) => {
                if !params.contains(name) {
                    match token_at(tokens, at + 2) {
                        Some(TokenView::Comma) => {
                            lemma_parameters_moves(tokens, at + 3, params.push(name));
                        },
                        _ => {},
                    }
                }
            },
            _ => {},
        },
        _ => {},
    }
}

/// A program leaves the position where parsing can reach.
pub proof fn lemma_program_moves(tokens: Seq<TokenView>, at: int)
    ensures
        moves(tokens.len() as int, at, program(tokens, at).at),
{
    reveal(program);
    lemma_functions_moves(
        tokens,
        at,
        Seq::empty(),
        Counters { temps: 0, loops: 0, branches: 0 },
        Seq::empty(),
    );
}

/// Functions leave the position where parsing can reach.
pub proof fn lemma_functions_moves(
    tokens: Seq<TokenView>,
    at: int,
    functions: Seq<Seq<char>>,
    counters: Counters,
    code: Seq<Instr>,
)
    ensures
        moves(
            tokens.len() as int,
            at,
            functions_from(tokens, at, functions, counters, code).at,
        ),
    decreases tokens.len() - at,
{
    reveal(functions_from);
    lemma_function_moves(tokens, at, functions, counters);
    let one = function(tokens, at, functions, counters);
    if let Ok(Some(more)) = one.result {
        lemma_functions_moves(tokens, one.at, one.functions, one.counters, code + more);
    }
}

} // verus!
