//! A number that is written comes out as it went in: the smallest program
//! that writes a number, from its tokens to its output.

use crate::contract::{
    is_word, lemma_reads_back, lemma_settle_unit, lower_body, lower_unit, lowered, valid_code,
};
use crate::grammar::{
    block, expect, expression, expression_rest, function, function_code, functions_from,
    mul_expression, mul_rest, parameters, program, return_statement, statement, statements,
    term, token_at, transfer_statement, Counters, ExprIr, ParseState, Scope,
};
use crate::ir::{render, Instr, Operand};
use crate::program::{AtomView, FunctionView, PlaceView, ProgramView, StmtView};
use crate::runner::{execution_of, lemma_print_writes_number, printing, End, RunView};
use crate::text::decimal;
use crate::token::TokenView;
use vstd::prelude::*;

verus! {

/// The tokens of the program `func main(){ print(n); return 0; }`.
pub open spec fn print_tokens(n: i32) -> Seq<TokenView> {
    seq![
        TokenView::Func,
        TokenView::Ident("main"@),
        TokenView::LeftParen,
        TokenView::RightParen,
        TokenView::LeftCurly,
        TokenView::Print,
        TokenView::LeftParen,
        TokenView::Num(n),
        TokenView::RightParen,
        TokenView::Semicolon,
        TokenView::Return,
        TokenView::Num(0),
        TokenView::Semicolon,
        TokenView::RightCurly,
    ]
}

/// The code of the program that writes `n`.
pub open spec fn print_code(n: i32) -> Seq<Instr> {
    function_code(
        "main"@,
        Seq::empty(),
        seq![
            Instr::Out { value: Operand::Lit(n as int) },
            Instr::Ret { value: Operand::Lit(0) },
        ],
    )
}

/// A number that a closing token follows is an expression by itself.
proof fn lemma_number_expression(tokens: Seq<TokenView>, scope: Scope, at: int, n: i32)
    requires
        0 <= at,
        at + 1 < tokens.len(),
        tokens[at] == TokenView::Num(n),
        tokens[at + 1] == TokenView::RightParen || tokens[at + 1] == TokenView::Semicolon,
    ensures
        expression(tokens, scope, at, 0) == crate::grammar::done(
            at + 1,
            0,
            ExprIr { code: Seq::empty(), operand: Operand::Lit(n as int) },
        ),
{
    reveal(expression);
    reveal(mul_expression);
    reveal(term);
    reveal(expression_rest);
    reveal(mul_rest);
    let e = ExprIr { code: Seq::empty(), operand: Operand::Lit(n as int) };
    assert(token_at(tokens, at) == Some(tokens[at]));
    assert(token_at(tokens, at + 1) == Some(tokens[at + 1]));
    assert(term(tokens, scope, at, 0) == crate::grammar::done(at + 1, 0, e));
    assert(mul_rest(tokens, scope, at + 1, 0, e) == crate::grammar::done(at + 1, 0, e));
    assert(mul_expression(tokens, scope, at, 0) == crate::grammar::done(at + 1, 0, e));
    assert(expression_rest(tokens, scope, at + 1, 0, e) == crate::grammar::done(at + 1, 0, e));
}

/// The state in the body of `main`, at a position.
pub open spec fn print_state(at: int) -> ParseState {
    ParseState {
        at,
        counters: Counters { temps: 0, loops: 0, branches: 0 },
        scope: Scope { symbols: Seq::empty(), arrays: Seq::empty(), functions: seq!["main"@] },
        labels: Seq::empty(),
    }
}

proof fn lemma_print_statements(n: i32)
    ensures
        statements(print_tokens(n), print_state(5), Seq::empty()) == print_state(13).done(
            seq![
                Instr::Out { value: Operand::Lit(n as int) },
                Instr::Ret { value: Operand::Lit(0) },
            ],
        ),
{
    reveal_with_fuel(statements, 4);
    reveal(statement);
    reveal(transfer_statement);
    reveal(return_statement);
    let tokens = print_tokens(n);
    let scope = print_state(5).scope;
    let out = seq![Instr::Out { value: Operand::Lit(n as int) }];
    let ret = seq![Instr::Ret { value: Operand::Lit(0) }];
    lemma_number_expression(tokens, scope, 7, n);
    lemma_number_expression(tokens, scope, 11, 0);
    assert(token_at(tokens, 5) == Some(tokens[5]));
    assert(token_at(tokens, 6) == Some(tokens[6]));
    assert(token_at(tokens, 8) == Some(tokens[8]));
    assert(token_at(tokens, 9) == Some(tokens[9]));
    assert(token_at(tokens, 10) == Some(tokens[10]));
    assert(token_at(tokens, 12) == Some(tokens[12]));
    assert(token_at(tokens, 13) == Some(tokens[13]));
    assert(Seq::<Instr>::empty() + out =~= out);
    assert(Seq::<Instr>::empty() + ret =~= ret);
    let first = statement(tokens, print_state(5));
    assert(first.result == Ok::<Option<Seq<Instr>>, Seq<char>>(Some(out)));
    assert(first.state == print_state(10));
    let second = statement(tokens, print_state(10));
    assert(second.result == Ok::<Option<Seq<Instr>>, Seq<char>>(Some(ret)));
    assert(second.state == print_state(13));
    let third = statement(tokens, print_state(13));
    assert(third == print_state(13).done(None::<Seq<Instr>>));
    assert(out + ret =~= seq![
        Instr::Out { value: Operand::Lit(n as int) },
        Instr::Ret { value: Operand::Lit(0) },
    ]);
    assert(statements(tokens, print_state(13), out + ret) == print_state(13).done(out + ret));
    assert(statements(tokens, print_state(10), out) == print_state(13).done(out + ret));
}

/// The parser makes of the tokens of the program that writes `n` the code
/// that writes `n`.
pub proof fn lemma_print_parses(n: i32)
    ensures
        program(print_tokens(n), 0).result == Ok::<Seq<Instr>, Seq<char>>(print_code(n)),
{
    reveal(program);
    reveal_with_fuel(functions_from, 3);
    reveal(function);
    reveal(parameters);
    reveal(block);
    reveal(statements);
    let tokens = print_tokens(n);
    let zero = Counters { temps: 0, loops: 0, branches: 0 };
    lemma_print_statements(n);
    assert(token_at(tokens, 0) == Some(tokens[0]));
    assert(token_at(tokens, 1) == Some(tokens[1]));
    assert(token_at(tokens, 2) == Some(tokens[2]));
    assert(token_at(tokens, 3) == Some(tokens[3]));
    assert(token_at(tokens, 4) == Some(tokens[4]));
    assert(token_at(tokens, 13) == Some(tokens[13]));
    assert(token_at(tokens, 14) is None);
    let names = Seq::<Seq<char>>::empty().push("main"@);
    assert(names =~= seq!["main"@]);
    assert(parameters(tokens, 3, Seq::empty()) == crate::grammar::done(
        4,
        0,
        Seq::<Seq<char>>::empty(),
    ));
    let start = ParseState { at: 4, ..print_state(4) };
    assert(start == print_state(4));
    assert(expect(tokens, print_state(4), TokenView::LeftCurly, "expected '{' for function"@).state
        == print_state(5));
    let body = block(
        tokens,
        print_state(4),
        "expected '{' for function"@,
        "expected '}' after function"@,
    );
    assert(body.state == print_state(14));
    let one = function(tokens, 0, Seq::empty(), zero);
    assert(one.result == Ok::<Option<Seq<Instr>>, Seq<char>>(Some(print_code(n))));
    assert(one.at == 14);
    assert(one.functions == names);
    let end = function(tokens, 14, names, zero);
    assert(end.result == Ok::<Option<Seq<Instr>>, Seq<char>>(None));
    assert(Seq::<Instr>::empty() + print_code(n) =~= print_code(n));
    assert(names[0] == "main"@);
    assert(names.contains("main"@));
}

/// The code that writes `n` stands for the program that writes `n`.
pub proof fn lemma_print_lowers(n: i32)
    ensures
        valid_code(print_code(n)),
        lowered(print_code(n)) == Ok::<ProgramView, Seq<char>>(printing(n)),
{
    reveal_strlit("main");
    let body = seq![
        Instr::Out { value: Operand::Lit(n as int) },
        Instr::Ret { value: Operand::Lit(0) },
    ];
    let code = print_code(n);
    assert(is_word("main"@));
    assert forall|k: int| 0 <= k < code.len() implies crate::contract::valid_instr(
        #[trigger] code[k],
    ) by {
        if k == 1 {
            assert(code[k] == body[0]);
        } else if k == 2 {
            assert(code[k] == body[1]);
        }
    }
    lemma_settle_unit("main"@, Seq::empty(), body, Seq::empty());
    assert(lower_body(body) =~= seq![
        StmtView::Out(PlaceView::Plain(AtomView::Lit(n))),
        StmtView::Ret(PlaceView::Plain(AtomView::Lit(0))),
    ]);
    assert(Seq::<FunctionView>::empty().push(lower_unit("main"@, Seq::empty(), body))
        =~= printing(n).functions);
}

/// A number that is written comes out as it went in: the program
/// `func main(){ print(n); return 0; }` is compiled to code whose text,
/// when executed for three steps or more, writes the decimal notation of
/// `n` and a line feed, and ends with status 0.
pub proof fn lemma_print_round_trip(n: i32, stdin: Seq<char>, steps: nat)
    requires
        steps >= 2,
    ensures
        program(print_tokens(n), 0).result matches Ok(code) && execution_of(
            render(code),
            stdin,
            steps,
        ) == Ok::<RunView, Seq<char>>(
            RunView { stdout: decimal(n as int) + seq!['\n'], end: End::Halted(0) },
        ),
{
    lemma_print_parses(n);
    lemma_print_lowers(n);
    lemma_reads_back(print_code(n));
    lemma_print_writes_number(n, stdin, steps);
}

} // verus!
